//! Stops jobs and deletes job records.
//!
//! The caller sends each signal and does the disk work. The functions here say
//! which process to signal, what each answer means, and what the memory of the
//! coordinator holds afterwards.

use crate::context;
use crate::deps;
use crate::deps::{Hold, Link, Node};
use crate::events;
use crate::ids;
use crate::job;
use crate::job::{Ancestor, JobState, JobStatus};
use crate::paths;
use crate::pause;
use crate::pause::{PauseRecord, Paused};
use crate::state;
use crate::state::{Job, State};
use crate::system;
use crate::system::{Errors, Signals};
use crate::text;
use std::collections::HashSet;
use vstd::prelude::*;
use vstd::string::*;

verus! {

// ---------------------------------------------------------------------------
// The name of a signal.
// ---------------------------------------------------------------------------

/// The signed number that the text gives, where it is one that 32 bits hold.
pub open spec fn signed_number(t: Seq<char>) -> Option<int> {
    if t.len() > 0 && t[0] == '-' {
        if t.len() > 1 && t[1] == '+' {
            None
        } else {
            match text::parsed(t.skip(1), 0x8000_0000) {
                Some(n) => Some(-(n as int)),
                None => None,
            }
        }
    } else {
        match text::parsed(t, 0x7fff_ffff) {
            Some(n) => Some(n as int),
            None => None,
        }
    }
}

/// The word of a signal: no space round it, capital letters, and no `SIG` before
/// it.
pub open spec fn signal_word(s: Seq<char>) -> Seq<char> {
    let t = text::raised(text::trimmed(s));
    if text::begins(t, "SIG"@) {
        t.skip("SIG"@.len() as int)
    } else {
        t
    }
}

/// The signal that the text names, or the text of the fault.
pub open spec fn signal_of(s: Seq<char>, numbers: Signals) -> Result<int, Seq<char>> {
    let t = signal_word(s);
    match signed_number(t) {
        Some(n) => if 1 <= n <= 64 {
            Ok(n)
        } else {
            Err("the signal number "@ + text::signed(n) + " is not in the range 1 to 64"@)
        },
        None => if t == "TERM"@ {
            Ok(numbers.term as int)
        } else if t == "KILL"@ {
            Ok(numbers.kill as int)
        } else if t == "INT"@ {
            Ok(numbers.interrupt as int)
        } else if t == "HUP"@ {
            Ok(numbers.hup as int)
        } else if t == "QUIT"@ {
            Ok(numbers.quit as int)
        } else if t == "USR1"@ {
            Ok(numbers.usr1 as int)
        } else if t == "USR2"@ {
            Ok(numbers.usr2 as int)
        } else {
            Err(
                "unknown signal `"@ + t
                    + "`. Use TERM, KILL, INT, HUP, QUIT, USR1, USR2, or a number."@,
            )
        },
    }
}

/// True when the result is the signal or the text of the fault.
pub open spec fn is_signal(r: Result<i32, String>, want: Result<int, Seq<char>>) -> bool {
    match r {
        Ok(n) => want == Ok::<int, Seq<char>>(n as int),
        Err(e) => want == Err::<int, Seq<char>>(e@),
    }
}

fn read_signed(t: &str) -> (r: Option<i64>)
    ensures
        match r {
            Some(n) => signed_number(t@) == Some(n as int) && -0x8000_0000 <= n <= 0x7fff_ffff,
            None => signed_number(t@) is None,
        },
{
    let c = text::chars(t);
    if c.len() > 0 && c[0] == '-' {
        if c.len() > 1 && c[1] == '+' {
            return None;
        }
        let rest = text::piece(&c, 1, c.len());
        assert(t@.subrange(1, t@.len() as int) == t@.skip(1));
        return match text::parse_number(rest.as_str(), 0x8000_0000) {
            Some(n) => Some(-(n as i64)),
            None => None,
        };
    }
    match text::parse_number(t, 0x7fff_ffff) {
        Some(n) => Some(n as i64),
        None => None,
    }
}

fn word_of_signal(s: &str) -> (r: String)
    ensures
        r@ == signal_word(s@),
{
    let t = text::upper(text::trim(s).as_str());
    if text::starts_with(t.as_str(), "SIG") {
        proof {
            reveal_strlit("SIG");
        }
        let c = text::chars(t.as_str());
        let out = text::piece(&c, 3, c.len());
        assert(t@.subrange(3, t@.len() as int) == t@.skip(3));
        out
    } else {
        t
    }
}

/// Reads a signal name such as `TERM`, `SIGTERM`, `KILL` or `9` by a table of
/// numbers.
pub fn parse_signal_by(s: &str, numbers: &Signals) -> (r: Result<i32, String>)
    ensures
        is_signal(r, signal_of(s@, *numbers)),
{
    let t = word_of_signal(s);
    match read_signed(t.as_str()) {
        Some(n) => {
            if 1 <= n && n <= 64 {
                return Ok(n as i32);
            }
            let mut m = text::owned("the signal number ");
            m.append(text::signed_decimal(n).as_str());
            m.append(" is not in the range 1 to 64");
            return Err(m);
        },
        None => {},
    }
    let w = t.as_str();
    if text::same(w, "TERM") {
        Ok(numbers.term)
    } else if text::same(w, "KILL") {
        Ok(numbers.kill)
    } else if text::same(w, "INT") {
        Ok(numbers.interrupt)
    } else if text::same(w, "HUP") {
        Ok(numbers.hup)
    } else if text::same(w, "QUIT") {
        Ok(numbers.quit)
    } else if text::same(w, "USR1") {
        Ok(numbers.usr1)
    } else if text::same(w, "USR2") {
        Ok(numbers.usr2)
    } else {
        let mut m = text::owned("unknown signal `");
        m.append(w);
        m.append("`. Use TERM, KILL, INT, HUP, QUIT, USR1, USR2, or a number.");
        Err(m)
    }
}

/// Reads a signal name such as `TERM`, `SIGTERM`, `KILL` or `9`.
///
/// The numbers of `USR1` and `USR2` depend on the system.
pub fn parse_signal(s: &str) -> (r: Result<i32, String>)
    ensures
        exists|numbers: Signals|
            system::known_signals(numbers) && is_signal(r, #[trigger] signal_of(s@, numbers)),
{
    let numbers = system::signals();
    parse_signal_by(s, &numbers)
}

// ---------------------------------------------------------------------------
// A refusal.
// ---------------------------------------------------------------------------

/// The kind of a fault.
#[derive(Debug, Clone, Copy, PartialEq, Eq, Structural)]
pub enum ErrorKind {
    /// No record has the id.
    NoSuchJob,
    /// The command does not fit the state of the job.
    WrongState,
    /// qex itself failed.
    Internal,
}

/// The answer to a command that qex did not do.
#[derive(Debug)]
pub struct Refusal {
    pub kind: ErrorKind,
    pub message: String,
}

impl View for Refusal {
    type V = (ErrorKind, Seq<char>);

    open spec fn view(&self) -> (ErrorKind, Seq<char>) {
        (self.kind, self.message@)
    }
}

/// The text of an id.
pub open spec fn name_of(id: u128) -> Seq<char> {
    ids::hyphenated(id as nat)
}

/// The answer for an id that no record has.
pub open spec fn no_such_job(id: u128) -> (ErrorKind, Seq<char>) {
    (ErrorKind::NoSuchJob, "there is no job with the id "@ + name_of(id))
}

fn no_job(id: u128) -> (r: Refusal)
    ensures
        r@ == no_such_job(id),
{
    let mut m = text::owned("there is no job with the id ");
    m.append(ids::id_text(id).as_str());
    Refusal { kind: ErrorKind::NoSuchJob, message: m }
}

/// Three pieces of text with an id between them.
fn about(kind: ErrorKind, id: u128, start: &str, middle: &str, end: &str) -> (r: Refusal)
    ensures
        r@ == (kind, start@ + name_of(id) + middle@ + end@),
{
    let mut m = text::owned(start);
    m.append(ids::id_text(id).as_str());
    m.append(middle);
    m.append(end);
    Refusal { kind, message: m }
}

// ---------------------------------------------------------------------------
// Kill.
// ---------------------------------------------------------------------------

/// The process group to signal, and the start time of its first process.
#[derive(Debug, Clone, Copy, PartialEq, Eq, Structural)]
pub struct Group {
    pub pid: i32,
    pub start: Option<u64>,
}

/// What a kill reaches, or the answer that refuses it.
pub open spec fn kill_target(jobs: Seq<Job>, id: u128) -> Result<Group, (ErrorKind, Seq<char>)> {
    match state::job_at(jobs, id) {
        None => Err(no_such_job(id)),
        Some(i) => {
            let status = jobs[i as int].status;
            if status.state == JobState::Queued {
                Err(
                    (
                        ErrorKind::WrongState,
                        "the job "@ + name_of(id) + " waits in the queue. Use `qex cancel "@ + (
                        name_of(id) + "`."@),
                    ),
                )
            } else if status.state.is_final() {
                Err(
                    (
                        ErrorKind::WrongState,
                        "the job "@ + name_of(id) + " stopped. Its state is `"@ + (
                        status.state.word() + "`."@),
                    ),
                )
            } else {
                match status.pid {
                    Some(pid) => Ok(Group { pid, start: status.pid_start_token }),
                    None => Err(
                        (
                            ErrorKind::WrongState,
                            "the job "@ + name_of(id) + " starts now."@
                                + " Try the command again."@,
                        ),
                    ),
                }
            }
        },
    }
}

/// Decides whom a kill of the job signals.
pub fn kill(state: &State, id: u128) -> (r: Result<Group, Refusal>)
    ensures
        match r {
            Ok(g) => kill_target(state.jobs@, id) == Ok::<Group, (ErrorKind, Seq<char>)>(g),
            Err(e) => kill_target(state.jobs@, id) == Err::<Group, (ErrorKind, Seq<char>)>(e@),
        },
{
    let at: usize = match state::find_job(&state.jobs, id) {
        Some(i) => i,
        None => {
            return Err(no_job(id));
        },
    };
    let status = &state.jobs[at].status;
    let queued = match status.state {
        JobState::Queued => true,
        _ => false,
    };
    if queued {
        let mut end = ids::id_text(id);
        end.append("`.");
        return Err(
            about(
                ErrorKind::WrongState,
                id,
                "the job ",
                " waits in the queue. Use `qex cancel ",
                end.as_str(),
            ),
        );
    }
    if status.state.is_terminal() {
        let mut end = text::owned(status.state.as_str());
        end.append("`.");
        return Err(
            about(
                ErrorKind::WrongState,
                id,
                "the job ",
                " stopped. Its state is `",
                end.as_str(),
            ),
        );
    }
    match status.pid {
        Some(pid) => Ok(Group { pid, start: status.pid_start_token }),
        None => Err(
            about(
                ErrorKind::WrongState,
                id,
                "the job ",
                " starts now.",
                " Try the command again.",
            ),
        ),
    }
}

/// The answer after the signal failed with an error, whose text is `why`.
pub open spec fn signal_fault(
    id: u128,
    error: Option<i32>,
    why: Seq<char>,
    codes: Errors,
) -> (ErrorKind, Seq<char>) {
    if error == Some(codes.srch) {
        (
            ErrorKind::WrongState,
            "the job "@ + name_of(id)
                + " has no process. It stopped in the moment before this command. Read `qex status "@
                + (name_of(id) + "` for the result."@),
        )
    } else {
        (
            ErrorKind::Internal,
            "qex could not signal the job "@ + name_of(id) + ": "@ + why,
        )
    }
}

/// Reads the error of a signal by a table of numbers.
///
/// A group with no process is a job that stopped in the moment before. An
/// answer that says "the job received the signal" would be false.
pub fn signal_fault_by(id: u128, error: Option<i32>, why: &str, codes: &Errors) -> (r: Refusal)
    ensures
        r@ == signal_fault(id, error, why@, *codes),
{
    let gone = match error {
        Some(e) => e == codes.srch,
        None => false,
    };
    if gone {
        let mut end = ids::id_text(id);
        end.append("` for the result.");
        return about(
            ErrorKind::WrongState,
            id,
            "the job ",
            " has no process. It stopped in the moment before this command. Read `qex status ",
            end.as_str(),
        );
    }
    about(ErrorKind::Internal, id, "qex could not signal the job ", ": ", why)
}

/// Reads the error of a signal by the numbers of this system.
pub fn signal_failed(id: u128, error: Option<i32>, why: &str) -> (r: Refusal)
    ensures
        exists|codes: Errors|
            system::known_errors(codes) && r@ == #[trigger] signal_fault(id, error, why@, codes),
{
    let codes = system::errors();
    signal_fault_by(id, error, why, &codes)
}

/// Tests if a `KILL` follows the signal after the grace time. The job cannot
/// avoid that signal.
pub fn needs_kill(signal: i32, grace_secs: u64) -> (r: bool)
    ensures
        r == (signal != 9 && grace_secs > 0),
{
    let numbers = system::signals();
    signal != numbers.kill && grace_secs > 0
}

/// True when the job still operates with the pid.
pub open spec fn still_its_pid(jobs: Seq<Job>, id: u128, pid: i32) -> bool {
    match state::job_at(jobs, id) {
        Some(i) => jobs[i as int].status.state.is_alive() && jobs[i as int].status.pid == Some(pid),
        None => false,
    }
}

/// Tests if the `KILL` goes to the group after the grace time.
///
/// The grace time is long: the job can stop in it, the machine can give its
/// number to a new process, and a job can start a new attempt with a new pid.
/// The `KILL` goes only while the pid is still the pid of this job, while it
/// still leads its group, and while the process has the start time of the first
/// signal.
pub fn may_kill(state: &State, id: u128, group: Group, alive: bool, same_start: bool) -> (r: bool)
    ensures
        r == (still_its_pid(state.jobs@, id, group.pid) && alive && same_start),
{
    let now = match state::find_job(&state.jobs, id) {
        Some(i) => {
            let status = &state.jobs[i].status;
            status.state.is_active() && match status.pid {
                Some(p) => p == group.pid,
                None => false,
            }
        },
        None => false,
    };
    now && alive && same_start
}

// ---------------------------------------------------------------------------
// Clean.
// ---------------------------------------------------------------------------

/// What the rules of the records read of a job.
pub open spec fn link_of(job: Job) -> Link {
    Link {
        id: job.status.id,
        group: job.status.group,
        terminal: job.status.state.is_final(),
        needs: job.spec.needs@,
        after: job.spec.after@,
    }
}

/// What the rules of the records read of the jobs.
pub open spec fn links_of(jobs: Seq<Job>) -> Seq<Link> {
    jobs.map_values(|j: Job| link_of(j))
}

/// Gives the records in the form that the rules of the records read.
pub fn dep_nodes(jobs: &Vec<Job>) -> (r: Vec<Node>)
    ensures
        deps::links(r@) == links_of(jobs@),
{
    let mut out: Vec<Node> = Vec::new();
    let mut i: usize = 0;
    while i < jobs.len()
        invariant
            i <= jobs@.len(),
            out@.len() == i,
            forall|k: int| 0 <= k < i ==> (#[trigger] out@[k])@ == link_of(jobs@[k]),
        decreases jobs@.len() - i,
    {
        let j = &jobs[i];
        out.push(
            Node {
                id: j.status.id,
                group: j.status.group,
                terminal: j.status.state.is_terminal(),
                needs: job::copy_ids(&j.spec.needs),
                after: job::copy_ids(&j.spec.after),
            },
        );
        i += 1;
    }
    assert(deps::links(out@) == links_of(jobs@));
    out
}

/// The words that name the jobs, as `a1b2c3d4 (train)`. An id with no record
/// gives none.
pub open spec fn job_names(jobs: Seq<Job>, list: Seq<u128>) -> Seq<Seq<char>>
    decreases list.len(),
{
    if list.len() == 0 {
        Seq::empty()
    } else {
        let rest = job_names(jobs, list.drop_last());
        match state::job_at(jobs, list.last()) {
            Some(i) => rest.push(
                name_of(list.last()).take(8) + " ("@ + job::safe(jobs[i as int].status.name@)
                    + ")"@,
            ),
            None => rest,
        }
    }
}

proof fn lemma_name_len(id: u128)
    ensures
        name_of(id).len() == 36,
{
    reveal_strlit("-");
    reveal_with_fuel(ids::power16, 33);
    ids::lemma_hex(id as nat, 32);
}

/// Names jobs for a sentence, as `a1b2c3d4 (train), e5f6a7b8 (test)`.
fn named(jobs: &Vec<Job>, list: &Vec<u128>) -> (r: String)
    ensures
        r@ == text::joined(job_names(jobs@, list@), ", "@),
{
    let mut words: Vec<String> = Vec::new();
    let mut i: usize = 0;
    while i < list.len()
        invariant
            i <= list@.len(),
            text::views(words@) == job_names(jobs@, list@.take(i as int)),
        decreases list@.len() - i,
    {
        assert(list@.take(i + 1).drop_last() == list@.take(i as int));
        let ghost before = words@;
        match state::find_job(jobs, list[i]) {
            Some(k) => {
                let c = text::chars(ids::id_text(list[i]).as_str());
                proof {
                    lemma_name_len(list@[i as int]);
                }
                let mut w = text::piece(&c, 0, 8);
                assert(c@.subrange(0, 8) == c@.take(8));
                w.append(" (");
                w.append(jobs[k].status.display_name().as_str());
                w.append(")");
                let ghost word = w@;
                words.push(w);
                assert(text::views(words@) == text::views(before).push(word));
            },
            None => {},
        }
        i += 1;
    }
    assert(list@.take(list@.len() as int) == list@);
    text::join(&words, ", ")
}

/// What a reader can do about the jobs that hold a record.
pub open spec fn hold_advice(n: nat) -> Seq<char> {
    if n == 1 {
        "Wait for that job, or cancel it."@
    } else {
        "Wait for those jobs, or cancel them."@
    }
}

/// The answer that refuses the deletion of a record, if one does.
///
/// Each rule is a different relation, so each has its own words.
pub open spec fn clean_refusal(jobs: Seq<Job>, id: u128) -> Option<(ErrorKind, Seq<char>)> {
    match state::job_at(jobs, id) {
        None => Some(no_such_job(id)),
        Some(i) => {
            let status = jobs[i as int].status;
            let held = deps::held(links_of(jobs), id);
            if !status.state.is_final() {
                Some(
                    (
                        ErrorKind::WrongState,
                        "the job "@ + name_of(id) + " is in the state `"@ + (status.state.word()
                            + "`. Stop it first with `qex kill "@ + name_of(id) + "`."@),
                    ),
                )
            } else if held.0.len() > 0 {
                Some(
                    (
                        ErrorKind::WrongState,
                        "the job "@ + name_of(id) + " is needed by "@ + (text::joined(
                            job_names(jobs, held.0),
                            ", "@,
                        ) + ". "@ + hold_advice(held.0.len())),
                    ),
                )
            } else if held.1.len() > 0 {
                Some(
                    (
                        ErrorKind::WrongState,
                        "the job "@ + name_of(id)
                            + " belongs to a pipeline that has work left: "@ + (text::joined(
                            job_names(jobs, held.1),
                            ", "@,
                        )
                            + ". The record of a stage stays while the pipeline operates, so that a reader can see the whole pipeline. "@
                            + hold_advice(held.1.len())),
                    ),
                )
            } else {
                None
            }
        },
    }
}

fn advice(n: usize) -> (r: &'static str)
    ensures
        r@ == hold_advice(n as nat),
{
    if n == 1 {
        "Wait for that job, or cancel it."
    } else {
        "Wait for those jobs, or cancel them."
    }
}

/// Tests if a record can go. This test is the last one before every deletion,
/// whatever asked for the deletion.
pub fn check_clean(jobs: &Vec<Job>, id: u128) -> (r: Result<(), Refusal>)
    ensures
        match r {
            Ok(_) => clean_refusal(jobs@, id) is None,
            Err(e) => clean_refusal(jobs@, id) == Some(e@),
        },
{
    let at: usize = match state::find_job(jobs, id) {
        Some(i) => i,
        None => {
            return Err(no_job(id));
        },
    };
    if !jobs[at].status.state.is_terminal() {
        let mut end = text::owned(jobs[at].status.state.as_str());
        end.append("`. Stop it first with `qex kill ");
        end.append(ids::id_text(id).as_str());
        end.append("`.");
        return Err(
            about(ErrorKind::WrongState, id, "the job ", " is in the state `", end.as_str()),
        );
    }
    match deps::hold_reason(&dep_nodes(jobs), id) {
        Some(Hold::Needed(holders)) => {
            let mut end = named(jobs, &holders);
            end.append(". ");
            end.append(advice(holders.len()));
            Err(about(ErrorKind::WrongState, id, "the job ", " is needed by ", end.as_str()))
        },
        Some(Hold::Pipeline(holders)) => {
            let mut end = named(jobs, &holders);
            end.append(
                ". The record of a stage stays while the pipeline operates, so that a reader can see the whole pipeline. ",
            );
            end.append(advice(holders.len()));
            Err(
                about(
                    ErrorKind::WrongState,
                    id,
                    "the job ",
                    " belongs to a pipeline that has work left: ",
                    end.as_str(),
                ),
            )
        },
        None => Ok(()),
    }
}

/// The removal of one record.
///
/// The caller writes the record of each dependent, adds the removal to the
/// history, and deletes the directory of the job, all outside the lock: the
/// deletion of a large log is slow.
#[derive(Debug)]
pub struct Removal {
    pub status: JobStatus,
    /// The jobs that named the removed job as their cause, with the record
    /// that each one holds now.
    pub dependents: Vec<(u128, JobStatus)>,
}

/// The queue without the ids.
pub open spec fn without(queue: Seq<u128>, gone: Seq<u128>) -> Seq<u128>
    decreases queue.len(),
{
    if queue.len() == 0 {
        Seq::empty()
    } else if gone.contains(queue.last()) {
        without(queue.drop_last(), gone)
    } else {
        without(queue.drop_last(), gone).push(queue.last())
    }
}

/// Takes the ids out of the queue. One pass over the queue serves all of them:
/// the queue is large exactly when many jobs leave it at once.
fn retain(queue: &Vec<u128>, gone: &Vec<u128>) -> (r: Vec<u128>)
    ensures
        r@ == without(queue@, gone@),
{
    broadcast use vstd::std_specs::hash::group_hash_axioms;

    let mut set: HashSet<u128> = HashSet::new();
    let mut k: usize = 0;
    while k < gone.len()
        invariant
            k <= gone@.len(),
            forall|x: u128| #[trigger] set@.contains(x) <==> gone@.take(k as int).contains(x),
        decreases gone@.len() - k,
    {
        let ghost before = set@;
        let id: u128 = gone[k];
        set.insert(id);
        proof {
            let less = gone@.take(k as int);
            let more = gone@.take(k + 1);
            assert(more == less.push(id));
            assert forall|x: u128| #[trigger] set@.contains(x) <==> more.contains(x) by {
                if less.contains(x) {
                    let i = choose|i: int| 0 <= i < less.len() && less[i] == x;
                    assert(more[i] == x);
                }
                assert(more[k as int] == id);
            }
        }
        k += 1;
    }
    assert(gone@.take(gone@.len() as int) == gone@);
    let mut out: Vec<u128> = Vec::new();
    let mut i: usize = 0;
    while i < queue.len()
        invariant
            i <= queue@.len(),
            forall|x: u128| #[trigger] set@.contains(x) <==> gone@.contains(x),
            out@ == without(queue@.take(i as int), gone@),
        decreases queue@.len() - i,
    {
        assert(queue@.take(i + 1).drop_last() == queue@.take(i as int));
        if !set.contains(&queue[i]) {
            out.push(queue[i]);
        }
        i += 1;
    }
    assert(queue@.take(queue@.len() as int) == queue@);
    out
}

/// What the record of a job says after the record of its cause went: the name
/// and the state of the cause stand in the text, so the record still answers
/// the question.
pub open spec fn cause_text(cause: JobStatus) -> Seq<char> {
    "the job `"@ + job::safe(cause.name@) + "` ("@ + cause.state.word()
        + ") did not succeed, so this job did not run. Its record is deleted, so there is no log to read."@
}

/// The job after the record of `cause` went.
pub open spec fn detached(now: Job, before: Job, cause: JobStatus) -> bool {
    if before.status.caused_by == Some(cause.id) {
        &&& now == (Job {
            status: JobStatus { error: now.status.error, caused_by: None, ..before.status },
            ..before
        })
        &&& text::opt_view(now.status.error) == Some(cause_text(cause))
    } else {
        now == before
    }
}

/// The positions among the first `n` jobs of those that name the job as their
/// cause.
pub open spec fn effects(jobs: Seq<Job>, cause: u128, n: nat) -> Seq<int>
    decreases n,
{
    if n == 0 {
        Seq::empty()
    } else if jobs[n - 1].status.caused_by == Some(cause) {
        effects(jobs, cause, (n - 1) as nat).push(n - 1)
    } else {
        effects(jobs, cause, (n - 1) as nat)
    }
}

/// The removal of the record at `i` from the jobs and the queue. The key that
/// the job held goes with it.
pub open spec fn is_removal(r: Removal, before: State, after: State, i: int) -> bool {
    let left = before.jobs@.remove(i);
    let cause = before.jobs@[i].status;
    let places = effects(left, cause.id, left.len());
    &&& r.status == cause
    &&& after.jobs@.len() == left.len()
    &&& forall|k: int|
        0 <= k < left.len() ==> detached(#[trigger] after.jobs@[k], left[k], cause)
    &&& after.queue@ == without(before.queue@, seq![cause.id])
    &&& after.keys@ == state::keys_of_others(before.keys@, cause.id)
    &&& r.dependents@.len() == places.len()
    &&& forall|k: int|
        0 <= k < places.len() ==> {
            &&& (#[trigger] r.dependents@[k]).0 == left[places[k]].status.id
            &&& r.dependents@[k].1.same(after.jobs@[places[k]].status)
        }
}

proof fn lemma_effects(jobs: Seq<Job>, cause: u128, n: nat)
    requires
        n <= jobs.len(),
    ensures
        forall|k: int|
            0 <= k < effects(jobs, cause, n).len() ==> 0 <= #[trigger] effects(jobs, cause, n)[k]
                < n,
    decreases n,
{
    if n > 0 {
        lemma_effects(jobs, cause, (n - 1) as nat);
        let rest = effects(jobs, cause, (n - 1) as nat);
        assert forall|k: int| 0 <= k < effects(jobs, cause, n).len() implies 0
            <= #[trigger] effects(jobs, cause, n)[k] < n by {
            if k < rest.len() {
                assert(effects(jobs, cause, n)[k] == rest[k]);
            }
        }
    }
}

fn text_of_cause(cause: &JobStatus) -> (r: String)
    ensures
        r@ == cause_text(*cause),
{
    let mut m = text::owned("the job `");
    m.append(cause.display_name().as_str());
    m.append("` (");
    m.append(cause.state.as_str());
    m.append(
        ") did not succeed, so this job did not run. Its record is deleted, so there is no log to read.",
    );
    m
}

/// Takes one record out of the memory of the coordinator, with its place in the
/// queue. Gives `None` when there is no such job.
///
/// The dedupe key goes at the same moment as the record: a key that names a job
/// with no record would give an id that nobody can answer for.
///
/// Each job that names this job as its cause gets a text that says what
/// happened: the text that it had sends the reader to a log that goes.
pub fn remove_record(state: &mut State, id: u128) -> (r: Option<Removal>)
    ensures
        *final(state) == (State {
            jobs: final(state).jobs,
            queue: final(state).queue,
            keys: final(state).keys,
            ..*old(state)
        }),
        match r {
            Some(removal) => {
                &&& state::job_at(old(state).jobs@, id) is Some
                &&& is_removal(
                    removal,
                    *old(state),
                    *final(state),
                    state::job_at(old(state).jobs@, id)->0 as int,
                )
            },
            None => state::job_at(old(state).jobs@, id) is None && *final(state) == *old(state),
        },
{
    let at: usize = match state::find_job(&state.jobs, id) {
        Some(i) => i,
        None => {
            return None;
        },
    };
    let removed = state.jobs.remove(at);
    let ghost left = state.jobs@;
    let ghost cause = removed.status;
    assert(left == old(state).jobs@.remove(at as int));
    let gone: Vec<u128> = vec![id];
    assert(gone@ == seq![id]);
    let queue = retain(&state.queue, &gone);
    state.queue = queue;
    state::release_dedupe(state, id);
    let mut dependents: Vec<(u128, JobStatus)> = Vec::new();
    let ghost places = effects(left, id, left.len());
    let mut i: usize = 0;
    while i < state.jobs.len()
        invariant
            i <= state.jobs@.len(),
            state.jobs@.len() == left.len(),
            cause == removed.status,
            cause.id == id,
            *state == (State {
                jobs: state.jobs,
                queue: state.queue,
                keys: state.keys,
                ..*old(state)
            }),
            state.keys@ == state::keys_of_others(old(state).keys@, id),
            state.queue@ == without(old(state).queue@, seq![id]),
            forall|k: int| 0 <= k < i ==> detached(#[trigger] state.jobs@[k], left[k], cause),
            forall|k: int| i <= k < left.len() ==> #[trigger] state.jobs@[k] == left[k],
            dependents@.len() == effects(left, id, i as nat).len(),
            forall|k: int|
                0 <= k < dependents@.len() ==> {
                    &&& (#[trigger] dependents@[k]).0 == left[effects(
                        left,
                        id,
                        i as nat,
                    )[k]].status.id
                    &&& dependents@[k].1.same(
                        state.jobs@[effects(left, id, i as nat)[k]].status,
                    )
                },
        decreases state.jobs@.len() - i,
    {
        let named = match state.jobs[i].status.caused_by {
            Some(c) => c == id,
            None => false,
        };
        proof {
            lemma_effects(left, id, i as nat);
        }
        let ghost before = state.jobs@;
        if named {
            let m = text_of_cause(&removed.status);
            state.jobs[i].status.error = Some(m);
            state.jobs[i].status.caused_by = None;
            let copy = state.jobs[i].status.copy();
            dependents.push((state.jobs[i].status.id, copy));
            assert(forall|k: int|
                0 <= k < left.len() && k != i ==> #[trigger] state.jobs@[k] == before[k]);
            assert(detached(state.jobs@[i as int], left[i as int], cause));
        }
        i += 1;
    }
    let out = Removal { status: removed.status, dependents };
    assert(is_removal(out, *old(state), *state, at as int));
    Some(out)
}

/// Deletes the record of one job. This command does not stop a job: a job that
/// operates keeps its record, and so does a job that another job needs.
///
/// The test and the removal are one step of the memory, so no submission can
/// name this job between them.
pub fn clean(state: &mut State, id: u128, now: u64) -> (r: Result<Removal, Refusal>)
    requires
        events::can_publish(*old(state)),
    ensures
        match r {
            Ok(removal) => {
                &&& clean_refusal(old(state).jobs@, id) is None
                &&& state::job_at(old(state).jobs@, id) is Some
                &&& is_removal(
                    removal,
                    *old(state),
                    *final(state),
                    state::job_at(old(state).jobs@, id)->0 as int,
                )
                &&& *final(state) == (State {
                    jobs: final(state).jobs,
                    queue: final(state).queue,
                    keys: final(state).keys,
                    events: final(state).events,
                    ..*old(state)
                })
                &&& events::published(
                    old(state).events,
                    final(state).events,
                    final(state).jobs@,
                    now,
                )
            },
            Err(e) => clean_refusal(old(state).jobs@, id) == Some(e@) && *final(state) == *old(
                state,
            ),
        },
{
    match check_clean(&state.jobs, id) {
        Ok(_) => {},
        Err(e) => {
            return Err(e);
        },
    }
    match remove_record(state, id) {
        None => Err(no_job(id)),
        Some(removal) => {
            proof {
                let i = state::job_at(old(state).jobs@, id)->0 as int;
                let left = old(state).jobs@.remove(i);
                state::lemma_job_from(old(state).jobs@, id, 0);
                lemma_detached_order(old(state).jobs@, state.jobs@, left, removal.status, i);
            }
            let ghost mid = *state;
            state.publish_changes(now);
            assert(is_removal(
                removal,
                *old(state),
                *state,
                state::job_at(old(state).jobs@, id)->0 as int,
            ));
            Ok(removal)
        },
    }
}

proof fn lemma_detached_order(
    jobs: Seq<Job>,
    after: Seq<Job>,
    left: Seq<Job>,
    cause: JobStatus,
    i: int,
)
    requires
        0 <= i < jobs.len(),
        left == jobs.remove(i),
        state::in_id_order(jobs),
        after.len() == left.len(),
        forall|k: int| 0 <= k < left.len() ==> detached(#[trigger] after[k], left[k], cause),
    ensures
        state::in_id_order(after),
        after.len() < jobs.len(),
{
    assert forall|a: int, b: int| 0 <= a < b < after.len() implies (
    #[trigger] after[a]).status.id < (#[trigger] after[b]).status.id by {
        let x = if a < i {
            a
        } else {
            a + 1
        };
        let y = if b < i {
            b
        } else {
            b + 1
        };
        assert(left[a] == jobs[x]);
        assert(left[b] == jobs[y]);
        assert(jobs[x].status.id < jobs[y].status.id);
    }
}

// ---------------------------------------------------------------------------
// Abort.
// ---------------------------------------------------------------------------

/// The jobs that an abort reaches. Every part narrows the scope, and a part
/// that is `None` or empty narrows nothing.
#[derive(Debug)]
pub struct AbortScope {
    /// The directory of the job.
    pub cwd: Option<String>,
    /// The processes above the command that asked.
    pub submitter: Option<Vec<Ancestor>>,
    /// The job has one of these tags.
    pub tags: Vec<String>,
}

/// True when the lists have a text in common.
pub open spec fn meet(a: Seq<String>, b: Seq<String>) -> bool {
    exists|i: int| 0 <= i < a.len() && text::views(b).contains(#[trigger] a[i]@)
}

/// True when the scope reaches the job.
///
/// `boot` is the identifier of the current start of the machine. A record of an
/// earlier start could name a process of this start by accident, so such a
/// record is outside every context.
pub open spec fn scoped(job: Job, scope: AbortScope, boot: Seq<char>) -> bool {
    &&& scope.cwd matches Some(dir) ==> paths::one_path(job.status.cwd@, dir@)
    &&& scope.submitter matches Some(caller) ==> {
        &&& text::opt_view(job.status.boot_id) == Some(boot)
        &&& context::one_session(job.status.submitter@, caller@)
    }
    &&& scope.tags@.len() == 0 || meet(scope.tags@, job.spec.tags@)
}

/// Tests one job against the scope of an abort.
pub fn in_scope(job: &Job, scope: &AbortScope, boot: &str) -> (r: bool)
    ensures
        r == scoped(*job, *scope, boot@),
{
    match &scope.cwd {
        Some(dir) => {
            if !paths::same_path(job.status.cwd.as_str(), dir.as_str()) {
                return false;
            }
        },
        None => {},
    }
    match &scope.submitter {
        Some(caller) => {
            match &job.status.boot_id {
                Some(b) => {
                    if !text::same(b.as_str(), boot) {
                        return false;
                    }
                },
                None => {
                    return false;
                },
            }
            if !context::shared(job.status.submitter.as_slice(), caller.as_slice()) {
                return false;
            }
        },
        None => {},
    }
    if scope.tags.len() == 0 {
        return true;
    }
    any_common(&scope.tags, &job.spec.tags)
}

fn any_common(a: &Vec<String>, b: &Vec<String>) -> (r: bool)
    ensures
        r == meet(a@, b@),
{
    let mut i: usize = 0;
    while i < a.len()
        invariant
            i <= a@.len(),
            forall|k: int| 0 <= k < i ==> !text::views(b@).contains(#[trigger] a@[k]@),
        decreases a@.len() - i,
    {
        if text::contains(b, a[i].as_str()) {
            assert(text::views(b@).contains(a@[i as int]@));
            return true;
        }
        i += 1;
    }
    false
}

/// A job that an abort did not stop.
#[derive(Debug)]
pub struct AbortedJob {
    pub id: u128,
    pub name: String,
    pub why: String,
}

/// What the part of an abort that runs under the lock decided.
#[derive(Debug)]
pub struct AbortPlan {
    /// The jobs that waited and that the plan cancelled, with the record that
    /// each one holds now. The record stands on the disk.
    pub cancelled: Vec<(u128, JobStatus)>,
    /// The queued jobs whose record qex could not write. Each one stays in the
    /// queue.
    pub not_cancelled: Vec<AbortedJob>,
    /// The jobs of the scope that operate: each one is a job to signal.
    pub running: Vec<(u128, String)>,
    /// The jobs that wait or operate outside the scope.
    pub outside: usize,
}

/// What an abort makes of one job. `fault` is the text of the fault where the
/// record could not be written.
pub enum Fate {
    Cancelled,
    NotCancelled(Seq<char>),
    Running,
    Outside,
    /// The job stopped before.
    Stopped,
}

/// What an abort makes of one job.
pub open spec fn fate(job: Job, scope: AbortScope, boot: Seq<char>, fault: Option<String>) -> Fate {
    if job.status.state.is_final() {
        Fate::Stopped
    } else if !scoped(job, scope, boot) {
        Fate::Outside
    } else if job.status.state == JobState::Queued {
        match fault {
            None => Fate::Cancelled,
            Some(why) => Fate::NotCancelled(why@),
        }
    } else {
        Fate::Running
    }
}

/// What an abort makes of the jobs.
pub open spec fn fates(
    jobs: Seq<Job>,
    scope: AbortScope,
    boot: Seq<char>,
    faults: Seq<Option<String>>,
) -> Seq<Fate> {
    Seq::new(jobs.len(), |i: int| fate(jobs[i], scope, boot, faults[i]))
}

/// The lists of a plan.
pub enum Kind {
    Cancelled,
    NotCancelled,
    Running,
    Outside,
}

/// True when a job with the fate stands in the list.
pub open spec fn goes_to(f: Fate, kind: Kind) -> bool {
    match kind {
        Kind::Cancelled => f is Cancelled,
        Kind::NotCancelled => f is NotCancelled,
        Kind::Running => f is Running,
        Kind::Outside => f is Outside,
    }
}

/// The positions of the jobs that stand in a list of the plan, in order.
pub open spec fn picked(list: Seq<Fate>, kind: Kind) -> Seq<int>
    decreases list.len(),
{
    if list.len() == 0 {
        Seq::empty()
    } else if goes_to(list.last(), kind) {
        picked(list.drop_last(), kind).push(list.len() - 1)
    } else {
        picked(list.drop_last(), kind)
    }
}

/// The record that an abort writes for a job that waited: the job is cancelled
/// at this moment, and a cancel that a person asked for leaves no error text.
pub open spec fn cancelled_record(next: JobStatus, before: JobStatus, now: u64) -> bool {
    next.same(
        (JobStatus {
            state: JobState::Cancelled,
            finished_at: Some(now),
            blocked_reason: None,
            error: None,
            ..before
        }),
    )
}

/// The plan says what the fates say, and the jobs are what they make of them.
pub open spec fn plans(
    plan: AbortPlan,
    jobs: Seq<Job>,
    after: Seq<Job>,
    list: Seq<Fate>,
    now: u64,
) -> bool {
    let c = picked(list, Kind::Cancelled);
    let n = picked(list, Kind::NotCancelled);
    let r = picked(list, Kind::Running);
    &&& after.len() == list.len()
    &&& forall|i: int|
        0 <= i < list.len() ==> if list[i] is Cancelled {
            &&& cancelled_record((#[trigger] after[i]).status, jobs[i].status, now)
            &&& after[i] == (Job { status: after[i].status, ..jobs[i] })
        } else {
            after[i] == jobs[i]
        }
    &&& plan.cancelled@.len() == c.len()
    &&& forall|k: int|
        0 <= k < c.len() ==> {
            &&& (#[trigger] plan.cancelled@[k]).0 == jobs[c[k]].status.id
            &&& plan.cancelled@[k].1.same(after[c[k]].status)
        }
    &&& plan.not_cancelled@.len() == n.len()
    &&& forall|k: int|
        0 <= k < n.len() ==> {
            &&& (#[trigger] plan.not_cancelled@[k]).id == jobs[n[k]].status.id
            &&& plan.not_cancelled@[k].name@ == job::safe(jobs[n[k]].status.name@)
            &&& list[n[k]] == Fate::NotCancelled(plan.not_cancelled@[k].why@)
        }
    &&& plan.running@.len() == r.len()
    &&& forall|k: int|
        0 <= k < r.len() ==> {
            &&& (#[trigger] plan.running@[k]).0 == jobs[r[k]].status.id
            &&& plan.running@[k].1@ == job::safe(jobs[r[k]].status.name@)
        }
    &&& plan.outside == picked(list, Kind::Outside).len()
}

/// The ids of the cancelled jobs of a plan.
pub open spec fn cancelled_ids(plan: AbortPlan) -> Seq<u128> {
    plan.cancelled@.map_values(|c: (u128, JobStatus)| c.0)
}

/// The pause after an abort. A pause that a person made earlier keeps its end
/// and its reason; a queue that operated gets a request with no end.
pub open spec fn abort_pause(before: Paused, after: Paused, by_pid: i32, now: u64) -> bool {
    if before.queue@.len() > 0 {
        after == before
    } else {
        &&& after == (Paused { queue: after.queue, queue_since: Some(now), ..before })
        &&& after.queue@.len() == 1
        &&& after.queue@[0] == (PauseRecord {
            id: after.queue@[0].id,
            paused_at: now,
            by_pid,
            reason: after.queue@[0].reason,
            until: None,
            fault: false,
            issuer_chain: None,
            issuer_ns: None,
        })
        &&& text::opt_view(after.queue@[0].reason) == Some("qex abort"@)
        &&& after.queue@[0].id@.len() >= 8
        &&& !pause::ids_of(pause::flat(before.locks@)).contains(after.queue@[0].id@)
    }
}

/// Pauses the queue for an abort.
fn pause_for_abort(paused: &mut Paused, by_pid: i32, now: u64)
    ensures
        abort_pause(*old(paused), *final(paused), by_pid, now),
{
    if paused.queue_paused() {
        return ;
    }
    let reason = text::owned("qex abort");
    let record = PauseRecord::new(by_pid, Some(reason), None, now);
    let _ = paused.add_queue(record);
    assert(pause::without_fault(old(paused).queue@) + pause::flat(old(paused).locks@)
        == pause::flat(old(paused).locks@));
}

/// The record that says that a job was cancelled at this moment.
fn cancel_record(status: &JobStatus, now: u64) -> (r: JobStatus)
    ensures
        cancelled_record(r, *status, now),
{
    let mut next = status.copy();
    next.state = JobState::Cancelled;
    next.finished_at = Some(now);
    next.blocked_reason = None;
    next.error = None;
    next
}

proof fn lemma_picked(list: Seq<Fate>, kind: Kind)
    ensures
        picked(list, kind).len() <= list.len(),
        forall|k: int|
            0 <= k < picked(list, kind).len() ==> 0 <= #[trigger] picked(list, kind)[k]
                < list.len() && goes_to(list[picked(list, kind)[k]], kind),
    decreases list.len(),
{
    if list.len() > 0 {
        lemma_picked(list.drop_last(), kind);
        let rest = picked(list.drop_last(), kind);
        assert forall|k: int| 0 <= k < picked(list, kind).len() implies 0 <= #[trigger] picked(
            list,
            kind,
        )[k] < list.len() && goes_to(list[picked(list, kind)[k]], kind) by {
            if k < rest.len() {
                assert(picked(list, kind)[k] == rest[k]);
            }
        }
    }
}

/// Each fault is what the write of the cancelled record of its job gave.
pub open spec fn write_faults<W: Fn(&JobStatus) -> Option<String>>(
    write: W,
    jobs: Seq<Job>,
    scope: AbortScope,
    boot: Seq<char>,
    now: u64,
    faults: Seq<Option<String>>,
) -> bool {
    &&& faults.len() == jobs.len()
    &&& forall|i: int|
        0 <= i < jobs.len() && scoped(#[trigger] jobs[i], scope, boot) && jobs[i].status.state
            == JobState::Queued ==> written(write, jobs[i].status, now, faults[i])
}

/// The write of the cancelled record can give the result.
pub open spec fn written<W: Fn(&JobStatus) -> Option<String>>(
    write: W,
    before: JobStatus,
    now: u64,
    fault: Option<String>,
) -> bool {
    exists|next: JobStatus|
        cancelled_record(next, before, now) && #[trigger] call_ensures(write, (&next,), fault)
}

/// The part of an abort that runs under the lock: the pause, the cancel, and the
/// list of the jobs to signal.
///
/// The pause comes first, and `save` writes it to the disk. `write` writes one
/// record and gives the text of its fault. It may rely on the saved pause: it is
/// only owed to work once `save` returned. A record goes to the disk first and
/// the memory follows: a job whose record could not be written stays queued in
/// memory as well, because the next coordinator reads the disk.
///
/// The record of a cancelled job stays, exactly as after a cancel.
pub fn plan_abort<S: Fn(&Paused), W: Fn(&JobStatus) -> Option<String>>(
    state: &mut State,
    scope: &AbortScope,
    by_pid: i32,
    boot: &str,
    now: u64,
    save: S,
    write: W,
) -> (r: AbortPlan)
    requires
        events::can_publish(*old(state)),
        forall|p: &Paused| call_requires(save, (p,)),
        forall|p: &Paused, s: &JobStatus|
            abort_pause(old(state).paused, *p, by_pid, now) && #[trigger] call_ensures(
                save,
                (p,),
                (),
            ) ==> #[trigger] call_requires(write, (s,)),
    ensures
        abort_pause(old(state).paused, final(state).paused, by_pid, now),
        call_ensures(save, (&final(state).paused,), ()),
        exists|faults: Seq<Option<String>>| #[trigger]
            write_faults(write, old(state).jobs@, *scope, boot@, now, faults) && plans(
                r,
                old(state).jobs@,
                final(state).jobs@,
                fates(old(state).jobs@, *scope, boot@, faults),
                now,
            ),
        final(state).queue@ == without(old(state).queue@, cancelled_ids(r)),
        *final(state) == (State {
            jobs: final(state).jobs,
            queue: final(state).queue,
            paused: final(state).paused,
            events: final(state).events,
            ..*old(state)
        }),
        events::published(old(state).events, final(state).events, final(state).jobs@, now),
        final(state).wf(),
{
    pause_for_abort(&mut state.paused, by_pid, now);
    save(&state.paused);
    let ghost jobs = state.jobs@;
    let ghost paused = state.paused;
    let ghost mut faults: Seq<Option<String>> = Seq::empty();
    let mut plan = AbortPlan {
        cancelled: Vec::new(),
        not_cancelled: Vec::new(),
        running: Vec::new(),
        outside: 0,
    };
    let mut i: usize = 0;
    while i < state.jobs.len()
        invariant
            i <= state.jobs@.len(),
            state.jobs@.len() == jobs.len(),
            jobs == old(state).jobs@,
            *state == (State { jobs: state.jobs, paused: state.paused, ..*old(state) }),
            state.paused == paused,
            call_ensures(save, (&paused,), ()),
            forall|s: &JobStatus| call_requires(write, (s,)),
            write_faults(write, jobs.take(i as int), *scope, boot@, now, faults),
            plans(
                plan,
                jobs,
                state.jobs@.take(i as int),
                fates(jobs.take(i as int), *scope, boot@, faults),
                now,
            ),
            plan.outside <= i,
            forall|k: int| i <= k < jobs.len() ==> #[trigger] state.jobs@[k] == jobs[k],
        decreases state.jobs@.len() - i,
    {
        let ghost list = fates(jobs.take(i as int), *scope, boot@, faults);
        let ghost before = state.jobs@;
        let ghost old_plan = plan;
        let ghost old_faults = faults;
        let ghost mut fault: Option<String> = None;
        let reached = in_scope(&state.jobs[i], scope, boot);
        if !reached {
            if !state.jobs[i].status.state.is_terminal() {
                plan.outside = plan.outside + 1;
            }
        } else {
            match state.jobs[i].status.state {
                JobState::Queued => {
                    let next = cancel_record(&state.jobs[i].status, now);
                    let id: u128 = state.jobs[i].status.id;
                    let result = write(&next);
                    proof {
                        fault = result;
                        assert(call_ensures(write, (&next,), result));
                        assert(written(write, jobs[i as int].status, now, fault));
                    }
                    match result {
                        None => {
                            let copy = next.copy();
                            state.jobs[i].status = next;
                            plan.cancelled.push((id, copy));
                        },
                        Some(why) => {
                            let name = state.jobs[i].status.display_name();
                            plan.not_cancelled.push(AbortedJob { id, name, why });
                        },
                    }
                },
                JobState::Starting | JobState::Running => {
                    let name = state.jobs[i].status.display_name();
                    plan.running.push((state.jobs[i].status.id, name));
                },
                _ => {},
            }
        }
        proof {
            faults = faults.push(fault);
            let next_list = fates(jobs.take(i + 1), *scope, boot@, faults);
            let f = fate(jobs[i as int], *scope, boot@, fault);
            assert(next_list == list.push(f));
            assert(next_list.drop_last() == list);
            if f is Cancelled {
                assert(plan.cancelled@.drop_last() == old_plan.cancelled@);
            }
            if f is NotCancelled {
                assert(plan.not_cancelled@.drop_last() == old_plan.not_cancelled@);
            }
            if f is Running {
                assert(plan.running@.drop_last() == old_plan.running@);
            }
            assert(state.jobs@.take(i + 1) == before.take(i as int).push(state.jobs@[i as int]));
            lemma_plan_step(
                old_plan,
                plan,
                jobs,
                before.take(i as int),
                state.jobs@[i as int],
                list,
                f,
                now,
            );
            assert(write_faults(write, jobs.take(i + 1), *scope, boot@, now, faults)) by {
                assert forall|k: int|
                    0 <= k < i + 1 && scoped(#[trigger] jobs.take(i + 1)[k], *scope, boot@)
                        && jobs.take(i + 1)[k].status.state == JobState::Queued implies written(
                    write,
                    jobs.take(i + 1)[k].status,
                    now,
                    faults[k],
                ) by {
                    if k < i {
                        assert(jobs.take(i as int)[k] == jobs[k]);
                        assert(faults[k] == old_faults[k]);
                    }
                }
            }
        }
        i += 1;
    }
    assert(jobs.take(jobs.len() as int) == jobs);
    assert(state.jobs@.take(jobs.len() as int) == state.jobs@);
    let mut gone: Vec<u128> = Vec::new();
    let mut k: usize = 0;
    while k < plan.cancelled.len()
        invariant
            k <= plan.cancelled@.len(),
            gone@ == cancelled_ids(plan).take(k as int),
        decreases plan.cancelled@.len() - k,
    {
        gone.push(plan.cancelled[k].0);
        assert(cancelled_ids(plan).take(k + 1) == cancelled_ids(plan).take(k as int).push(
            cancelled_ids(plan)[k as int],
        ));
        k += 1;
    }
    assert(cancelled_ids(plan).take(cancelled_ids(plan).len() as int) == cancelled_ids(plan));
    let queue = retain(&state.queue, &gone);
    state.queue = queue;
    proof {
        let list = fates(jobs, *scope, boot@, faults);
        lemma_same_ids(plan, jobs, state.jobs@, list, now);
    }
    state.publish_changes(now);
    plan
}

proof fn lemma_same_ids(
    plan: AbortPlan,
    jobs: Seq<Job>,
    after: Seq<Job>,
    list: Seq<Fate>,
    now: u64,
)
    requires
        plans(plan, jobs, after, list, now),
        jobs.len() == list.len(),
        state::in_id_order(jobs),
    ensures
        state::in_id_order(after),
        after.len() == jobs.len(),
{
    assert forall|k: int| 0 <= k < after.len() implies (#[trigger] after[k]).status.id
        == jobs[k].status.id by {}
}

proof fn lemma_plan_step(
    plan: AbortPlan,
    next: AbortPlan,
    jobs: Seq<Job>,
    after: Seq<Job>,
    last: Job,
    list: Seq<Fate>,
    f: Fate,
    now: u64,
)
    requires
        plans(plan, jobs, after, list, now),
        list.len() < jobs.len(),
        ({
            let job = jobs[list.len() as int];
            match f {
                Fate::Cancelled => {
                    &&& cancelled_record(last.status, job.status, now)
                    &&& last == (Job { status: last.status, ..job })
                    &&& next.cancelled@.len() == plan.cancelled@.len() + 1
                    &&& next.cancelled@.drop_last() == plan.cancelled@
                    &&& next.cancelled@.last().0 == job.status.id
                    &&& next.cancelled@.last().1.same(last.status)
                    &&& next == (AbortPlan { cancelled: next.cancelled, ..plan })
                },
                Fate::NotCancelled(why) => {
                    &&& last == job
                    &&& next.not_cancelled@.len() == plan.not_cancelled@.len() + 1
                    &&& next.not_cancelled@.drop_last() == plan.not_cancelled@
                    &&& next.not_cancelled@.last().id == job.status.id
                    &&& next.not_cancelled@.last().name@ == job::safe(job.status.name@)
                    &&& next.not_cancelled@.last().why@ == why
                    &&& next == (AbortPlan { not_cancelled: next.not_cancelled, ..plan })
                },
                Fate::Running => {
                    &&& last == job
                    &&& next.running@.len() == plan.running@.len() + 1
                    &&& next.running@.drop_last() == plan.running@
                    &&& next.running@.last().0 == job.status.id
                    &&& next.running@.last().1@ == job::safe(job.status.name@)
                    &&& next == (AbortPlan { running: next.running, ..plan })
                },
                Fate::Outside => last == job && next == (AbortPlan {
                    outside: next.outside,
                    ..plan
                }) && next.outside == plan.outside + 1,
                Fate::Stopped => last == job && next == plan,
            }
        }),
    ensures
        plans(next, jobs, after.push(last), list.push(f), now),
{
    let all = list.push(f);
    assert(all.drop_last() == list);
    lemma_picked(list, Kind::Cancelled);
    lemma_picked(list, Kind::NotCancelled);
    lemma_picked(list, Kind::Running);
    lemma_picked(list, Kind::Outside);
    let c = picked(list, Kind::Cancelled);
    let n = picked(list, Kind::NotCancelled);
    let r = picked(list, Kind::Running);
    assert forall|k: int| 0 <= k < picked(all, Kind::Cancelled).len() implies {
        &&& (#[trigger] next.cancelled@[k]).0 == jobs[picked(all, Kind::Cancelled)[k]].status.id
        &&& next.cancelled@[k].1.same(after.push(last)[picked(all, Kind::Cancelled)[k]].status)
    } by {
        if k < c.len() {
            assert(next.cancelled@[k] == plan.cancelled@[k]);
            assert(picked(all, Kind::Cancelled)[k] == c[k]);
        }
    }
    assert forall|k: int| 0 <= k < picked(all, Kind::NotCancelled).len() implies {
        &&& (#[trigger] next.not_cancelled@[k]).id == jobs[picked(
            all,
            Kind::NotCancelled,
        )[k]].status.id
        &&& next.not_cancelled@[k].name@ == job::safe(
            jobs[picked(all, Kind::NotCancelled)[k]].status.name@,
        )
        &&& all[picked(all, Kind::NotCancelled)[k]] == Fate::NotCancelled(
            next.not_cancelled@[k].why@,
        )
    } by {
        if k < n.len() {
            assert(next.not_cancelled@[k] == plan.not_cancelled@[k]);
            assert(picked(all, Kind::NotCancelled)[k] == n[k]);
        }
    }
    assert forall|k: int| 0 <= k < picked(all, Kind::Running).len() implies {
        &&& (#[trigger] next.running@[k]).0 == jobs[picked(all, Kind::Running)[k]].status.id
        &&& next.running@[k].1@ == job::safe(jobs[picked(all, Kind::Running)[k]].status.name@)
    } by {
        if k < r.len() {
            assert(next.running@[k] == plan.running@[k]);
            assert(picked(all, Kind::Running)[k] == r[k]);
        }
    }
}

/// Gives the id of the jobs of the pairs.
pub open spec fn ids_of(list: Seq<(u128, String)>) -> Seq<u128> {
    list.map_values(|p: (u128, String)| p.0)
}

/// Tests if a job left the queue and has no process yet.
pub fn starts_now(state: &State, id: u128) -> (r: bool)
    ensures
        r == match state::job_at(state.jobs@, id) {
            Some(i) => state.jobs@[i as int].status.state.is_alive()
                && state.jobs@[i as int].status.pid is None,
            None => false,
        },
{
    match state::find_job(&state.jobs, id) {
        Some(i) => state.jobs[i].status.state.is_active() && state.jobs[i].status.pid.is_none(),
        None => false,
    }
}

/// How long an abort waits for a job that is between the queue and its first
/// process, in seconds.
pub const STARTING_WAIT: u64 = 5;

/// The answer of an abort: what qex did, and not what the reader asked for.
#[derive(Debug)]
pub struct Aborted {
    pub cancelled: usize,
    pub not_cancelled: Vec<AbortedJob>,
    pub signalled: Vec<u128>,
    pub not_stopped: Vec<AbortedJob>,
    pub continues: Vec<u128>,
    pub outside: usize,
}

/// Starts the answer of an abort, with the jobs that are still to signal. A
/// reader who keeps the jobs that operate gets them in `continues`.
pub fn begin_abort(plan: AbortPlan, keep_running: bool) -> (r: (Aborted, Vec<(u128, String)>))
    ensures
        r.0.cancelled == plan.cancelled@.len(),
        r.0.not_cancelled == plan.not_cancelled,
        r.0.outside == plan.outside,
        r.0.signalled@.len() == 0,
        r.0.not_stopped@.len() == 0,
        keep_running ==> r.0.continues@ == ids_of(plan.running@) && r.1@.len() == 0,
        !keep_running ==> r.0.continues@.len() == 0 && r.1 == plan.running,
{
    let mut out = Aborted {
        cancelled: plan.cancelled.len(),
        not_cancelled: plan.not_cancelled,
        signalled: Vec::new(),
        not_stopped: Vec::new(),
        continues: Vec::new(),
        outside: plan.outside,
    };
    if !keep_running {
        return (out, plan.running);
    }
    let mut i: usize = 0;
    while i < plan.running.len()
        invariant
            i <= plan.running@.len(),
            out == (Aborted { continues: out.continues, ..out }),
            out.cancelled == plan.cancelled@.len(),
            out.not_cancelled == plan.not_cancelled,
            out.outside == plan.outside,
            out.signalled@.len() == 0,
            out.not_stopped@.len() == 0,
            out.continues@ == ids_of(plan.running@).take(i as int),
        decreases plan.running@.len() - i,
    {
        out.continues.push(plan.running[i].0);
        assert(ids_of(plan.running@).take(i + 1) == ids_of(plan.running@).take(i as int).push(
            ids_of(plan.running@)[i as int],
        ));
        i += 1;
    }
    assert(ids_of(plan.running@).take(plan.running@.len() as int) == ids_of(plan.running@));
    (out, Vec::new())
}

/// What one try to stop a job gave.
#[derive(Debug)]
pub struct Stop {
    /// The answer that refused the kill; `None` when the signal went out.
    pub refused: Option<Refusal>,
    /// True when the job left the queue and has no process yet.
    pub starting: bool,
    /// True when the time for such a job is over.
    pub late: bool,
}

/// Where an abort puts a job after one try.
pub enum Place {
    Signalled,
    /// The job starts, and there is time to try again.
    Later,
    NotStopped(Seq<char>),
}

/// Where an abort puts a job after one try.
pub open spec fn place_after(stop: Stop) -> Place {
    match stop.refused {
        None => Place::Signalled,
        Some(e) => if stop.starting && !stop.late {
            Place::Later
        } else {
            Place::NotStopped(e.message@)
        },
    }
}

/// Each try is one that the function can give for its job.
pub open spec fn tried<F: Fn(u128) -> Stop>(
    stop: F,
    pending: Seq<(u128, String)>,
    tries: Seq<Stop>,
) -> bool {
    &&& tries.len() == pending.len()
    &&& forall|i: int|
        0 <= i < tries.len() ==> call_ensures(stop, (pending[i].0,), #[trigger] tries[i])
}

/// The ids of the jobs that were signalled.
pub open spec fn signalled(pending: Seq<(u128, String)>, tries: Seq<Stop>, n: nat) -> Seq<u128>
    decreases n,
{
    if n == 0 {
        Seq::empty()
    } else if place_after(tries[n - 1]) is Signalled {
        signalled(pending, tries, (n - 1) as nat).push(pending[n - 1].0)
    } else {
        signalled(pending, tries, (n - 1) as nat)
    }
}

/// The jobs to try again.
pub open spec fn later(pending: Seq<(u128, String)>, tries: Seq<Stop>, n: nat) -> Seq<
    (u128, Seq<char>),
>
    decreases n,
{
    if n == 0 {
        Seq::empty()
    } else if place_after(tries[n - 1]) is Later {
        later(pending, tries, (n - 1) as nat).push((pending[n - 1].0, pending[n - 1].1@))
    } else {
        later(pending, tries, (n - 1) as nat)
    }
}

/// The jobs that did not stop: the id, the name and the reason.
pub open spec fn not_stopped(pending: Seq<(u128, String)>, tries: Seq<Stop>, n: nat) -> Seq<
    (u128, Seq<char>, Seq<char>),
>
    decreases n,
{
    if n == 0 {
        Seq::empty()
    } else {
        let rest = not_stopped(pending, tries, (n - 1) as nat);
        match place_after(tries[n - 1]) {
            Place::NotStopped(why) => rest.push((pending[n - 1].0, pending[n - 1].1@, why)),
            _ => rest,
        }
    }
}

/// What the pairs say.
pub open spec fn pairs(list: Seq<(u128, String)>) -> Seq<(u128, Seq<char>)> {
    list.map_values(|p: (u128, String)| (p.0, p.1@))
}

/// What the jobs that did not stop say.
pub open spec fn reports(list: Seq<AbortedJob>) -> Seq<(u128, Seq<char>, Seq<char>)> {
    list.map_values(|a: AbortedJob| (a.id, a.name@, a.why@))
}

/// One round of an abort over the jobs that are still to signal. `stop` sends
/// the signal to one job. The result holds the jobs to try again.
///
/// The scheduler took a job that starts out of the queue before the abort, and
/// its pid arrives a moment later, so the abort tries such a job again.
pub fn abort<F: Fn(u128) -> Stop>(
    answer: &mut Aborted,
    pending: Vec<(u128, String)>,
    stop: F,
) -> (r: Vec<(u128, String)>)
    requires
        forall|id: u128| call_requires(stop, (id,)),
    ensures
        exists|tries: Seq<Stop>| #[trigger]
            tried(stop, pending@, tries) && {
                &&& final(answer).signalled@ == old(answer).signalled@ + signalled(
                    pending@,
                    tries,
                    pending@.len(),
                )
                &&& pairs(r@) == later(pending@, tries, pending@.len())
                &&& reports(final(answer).not_stopped@) == reports(old(answer).not_stopped@)
                    + not_stopped(pending@, tries, pending@.len())
            },
        *final(answer) == (Aborted {
            signalled: final(answer).signalled,
            not_stopped: final(answer).not_stopped,
            ..*old(answer)
        }),
{
    let ghost mut tries: Seq<Stop> = Seq::empty();
    let mut again: Vec<(u128, String)> = Vec::new();
    let mut i: usize = 0;
    while i < pending.len()
        invariant
            i <= pending@.len(),
            forall|id: u128| call_requires(stop, (id,)),
            tried(stop, pending@.take(i as int), tries),
            answer.signalled@ == old(answer).signalled@ + signalled(pending@, tries, i as nat),
            pairs(again@) == later(pending@, tries, i as nat),
            reports(answer.not_stopped@) == reports(old(answer).not_stopped@) + not_stopped(
                pending@,
                tries,
                i as nat,
            ),
            *answer == (Aborted {
                signalled: answer.signalled,
                not_stopped: answer.not_stopped,
                ..*old(answer)
            }),
        decreases pending@.len() - i,
    {
        let id: u128 = pending[i].0;
        let one = stop(id);
        let ghost earlier = tries;
        let ghost list = answer.not_stopped@;
        let ghost sent = answer.signalled@;
        let ghost rest = again@;
        proof {
            tries = tries.push(one);
            lemma_same_tries(pending@, earlier, tries, i as nat);
            assert(tried(stop, pending@.take(i + 1), tries)) by {
                assert forall|k: int| 0 <= k < tries.len() implies call_ensures(
                    stop,
                    (pending@.take(i + 1)[k].0,),
                    #[trigger] tries[k],
                ) by {
                    if k < i {
                        assert(tries[k] == earlier[k]);
                        assert(pending@.take(i as int)[k] == pending@[k]);
                    }
                }
            }
        }
        match one.refused {
            None => {
                answer.signalled.push(id);
                assert(answer.signalled@ == sent.push(id));
            },
            Some(e) => {
                if one.starting && !one.late {
                    again.push((id, pending[i].1.clone()));
                    assert(pairs(again@) == pairs(rest).push((id, pending@[i as int].1@)));
                } else {
                    let report = AbortedJob { id, name: pending[i].1.clone(), why: e.message };
                    let ghost said = (report.id, report.name@, report.why@);
                    answer.not_stopped.push(report);
                    assert(reports(answer.not_stopped@) == reports(list).push(said));
                }
            },
        }
        assert(answer.signalled@ == old(answer).signalled@ + signalled(
            pending@,
            tries,
            i as nat + 1,
        ));
        assert(reports(answer.not_stopped@) == reports(old(answer).not_stopped@) + not_stopped(
            pending@,
            tries,
            i as nat + 1,
        ));
        i += 1;
    }
    assert(pending@.take(pending@.len() as int) == pending@);
    again
}

proof fn lemma_same_tries(
    pending: Seq<(u128, String)>,
    a: Seq<Stop>,
    b: Seq<Stop>,
    n: nat,
)
    requires
        forall|k: int| 0 <= k < n ==> #[trigger] a[k] == b[k],
    ensures
        signalled(pending, a, n) == signalled(pending, b, n),
        later(pending, a, n) == later(pending, b, n),
        not_stopped(pending, a, n) == not_stopped(pending, b, n),
    decreases n,
{
    if n > 0 {
        lemma_same_tries(pending, a, b, (n - 1) as nat);
        assert(a[n - 1] == b[n - 1]);
    }
}

/// The line that the log of the coordinator holds about an abort.
pub open spec fn abort_line(a: Aborted) -> Seq<char> {
    "qex abort: "@ + text::digits(a.cancelled as nat) + " cancelled, "@ + text::digits(
        a.not_cancelled@.len(),
    ) + " not cancelled, "@ + text::digits(a.signalled@.len()) + " signalled, "@ + text::digits(
        a.not_stopped@.len(),
    ) + " not stopped, "@ + text::digits(a.continues@.len()) + " continue, "@ + text::digits(
        a.outside as nat,
    ) + " outside the scope; the queue is paused"@
}

/// Gives the line that the log of the coordinator holds about an abort.
pub fn abort_text(a: &Aborted) -> (r: String)
    ensures
        r@ == abort_line(*a),
{
    let mut m = text::owned("qex abort: ");
    m.append(text::decimal(a.cancelled as u64).as_str());
    m.append(" cancelled, ");
    m.append(text::decimal(a.not_cancelled.len() as u64).as_str());
    m.append(" not cancelled, ");
    m.append(text::decimal(a.signalled.len() as u64).as_str());
    m.append(" signalled, ");
    m.append(text::decimal(a.not_stopped.len() as u64).as_str());
    m.append(" not stopped, ");
    m.append(text::decimal(a.continues.len() as u64).as_str());
    m.append(" continue, ");
    m.append(text::decimal(a.outside as u64).as_str());
    m.append(" outside the scope; the queue is paused");
    m
}

// ---------------------------------------------------------------------------
// Laws.
// ---------------------------------------------------------------------------

proof fn lemma_all_picked(list: Seq<Fate>, kind: Kind, i: int)
    requires
        0 <= i < list.len(),
        goes_to(list[i], kind),
    ensures
        exists|k: int| 0 <= k < picked(list, kind).len() && #[trigger] picked(list, kind)[k] == i,
    decreases list.len(),
{
    let rest = picked(list.drop_last(), kind);
    if i == list.len() - 1 {
        assert(picked(list, kind)[rest.len() as int] == i);
    } else {
        assert(list.drop_last()[i] == list[i]);
        lemma_all_picked(list.drop_last(), kind, i);
        let k = choose|k: int| 0 <= k < rest.len() && #[trigger] rest[k] == i;
        assert(picked(list, kind)[k] == i);
    }
}

proof fn lemma_without(queue: Seq<u128>, gone: Seq<u128>, id: u128)
    ensures
        without(queue, gone).contains(id) <==> queue.contains(id) && !gone.contains(id),
    decreases queue.len(),
{
    if queue.len() > 0 {
        let rest = queue.drop_last();
        lemma_without(rest, gone, id);
        assert(queue.contains(id) <==> rest.contains(id) || queue.last() == id) by {
            if queue.contains(id) && queue.last() != id {
                let k = choose|k: int| 0 <= k < queue.len() && queue[k] == id;
                assert(rest[k] == id);
            }
            if rest.contains(id) {
                let k = choose|k: int| 0 <= k < rest.len() && rest[k] == id;
                assert(queue[k] == id);
            }
            if queue.last() == id {
                assert(queue[queue.len() - 1] == id);
            }
        }
        if !gone.contains(queue.last()) {
            let w = without(rest, gone);
            assert(w.push(queue.last()).contains(id) <==> w.contains(id) || queue.last() == id) by {
                if w.contains(id) {
                    let k = choose|k: int| 0 <= k < w.len() && w[k] == id;
                    assert(w.push(queue.last())[k] == id);
                }
                assert(w.push(queue.last())[w.len() as int] == queue.last());
                if w.push(queue.last()).contains(id) && queue.last() != id {
                    let k = choose|k: int|
                        0 <= k < w.push(queue.last()).len() && w.push(queue.last())[k] == id;
                    assert(w[k] == id);
                }
            }
        }
    } else {
        assert(!queue.contains(id));
    }
}

/// A signal goes only to a job that operates, and to the group that its record
/// names: never to a job that waits or that stopped.
pub proof fn law_a_signal_reaches_only_a_job_that_operates(jobs: Seq<Job>, id: u128)
    ensures
        kill_target(jobs, id) matches Ok(group) ==> exists|i: int|
            0 <= i < jobs.len() && (#[trigger] jobs[i]).status.id == id
                && jobs[i].status.state.is_alive() && jobs[i].status.pid == Some(group.pid)
                && jobs[i].status.pid_start_token == group.start,
{
    state::lemma_job_from(jobs, id, 0);
}

/// Each round of an abort gives every job that was still to signal one answer:
/// it was signalled, it is to try again, or it did not stop.
pub proof fn law_each_job_gets_one_answer(
    pending: Seq<(u128, String)>,
    tries: Seq<Stop>,
    n: nat,
)
    ensures
        signalled(pending, tries, n).len() + later(pending, tries, n).len() + not_stopped(
            pending,
            tries,
            n,
        ).len() == n,
    decreases n,
{
    if n > 0 {
        law_each_job_gets_one_answer(pending, tries, (n - 1) as nat);
    }
}

/// An abort reaches every job of its scope that has not stopped: the job is
/// cancelled and out of the queue, or it is among the jobs whose record could
/// not be written, or among the jobs to signal. The queue is paused afterwards,
/// so no job of it can start until a resume.
pub proof fn law_an_abort_reaches_its_scope(
    plan: AbortPlan,
    before: State,
    after: State,
    scope: AbortScope,
    boot: Seq<char>,
    faults: Seq<Option<String>>,
    by_pid: i32,
    now: u64,
    i: int,
)
    requires
        faults.len() == before.jobs@.len(),
        plans(plan, before.jobs@, after.jobs@, fates(before.jobs@, scope, boot, faults), now),
        after.queue@ == without(before.queue@, cancelled_ids(plan)),
        abort_pause(before.paused, after.paused, by_pid, now),
        0 <= i < before.jobs@.len(),
        scoped(before.jobs@[i], scope, boot),
        !before.jobs@[i].status.state.is_final(),
    ensures
        after.paused.queue@.len() > 0,
        ({
            let id = before.jobs@[i].status.id;
            ||| after.jobs@[i].status.state == JobState::Cancelled && !after.queue@.contains(id)
                && cancelled_ids(plan).contains(id)
            ||| after.jobs@[i] == before.jobs@[i] && exists|k: int|
                0 <= k < plan.not_cancelled@.len() && (#[trigger] plan.not_cancelled@[k]).id == id
            ||| after.jobs@[i] == before.jobs@[i] && exists|k: int|
                0 <= k < plan.running@.len() && (#[trigger] plan.running@[k]).0 == id
        }),
{
    let list = fates(before.jobs@, scope, boot, faults);
    let id = before.jobs@[i].status.id;
    let f = list[i];
    if f is Cancelled {
        lemma_all_picked(list, Kind::Cancelled, i);
        let c = picked(list, Kind::Cancelled);
        let k = choose|k: int| 0 <= k < c.len() && #[trigger] c[k] == i;
        assert(plan.cancelled@[k].0 == id);
        assert(cancelled_ids(plan)[k] == id);
        lemma_without(before.queue@, cancelled_ids(plan), id);
        assert(after.jobs@[i].status.state == JobState::Cancelled);
    } else if f is NotCancelled {
        lemma_all_picked(list, Kind::NotCancelled, i);
        let n = picked(list, Kind::NotCancelled);
        let k = choose|k: int| 0 <= k < n.len() && #[trigger] n[k] == i;
        assert(plan.not_cancelled@[k].id == id);
    } else {
        lemma_all_picked(list, Kind::Running, i);
        let r = picked(list, Kind::Running);
        let k = choose|k: int| 0 <= k < r.len() && #[trigger] r[k] == i;
        assert(plan.running@[k].0 == id);
    }
}

/// An abort changes no job outside its scope, and no job that stopped: its
/// record and its place in the queue stay.
pub proof fn law_an_abort_changes_nothing_outside(
    plan: AbortPlan,
    before: State,
    after: State,
    scope: AbortScope,
    boot: Seq<char>,
    faults: Seq<Option<String>>,
    now: u64,
    i: int,
)
    requires
        before.wf(),
        faults.len() == before.jobs@.len(),
        plans(plan, before.jobs@, after.jobs@, fates(before.jobs@, scope, boot, faults), now),
        after.queue@ == without(before.queue@, cancelled_ids(plan)),
        0 <= i < before.jobs@.len(),
        !scoped(before.jobs@[i], scope, boot) || before.jobs@[i].status.state.is_final(),
    ensures
        after.jobs@[i] == before.jobs@[i],
        after.queue@.contains(before.jobs@[i].status.id) == before.queue@.contains(
            before.jobs@[i].status.id,
        ),
{
    let list = fates(before.jobs@, scope, boot, faults);
    let jobs = before.jobs@;
    let id = jobs[i].status.id;
    assert(!(list[i] is Cancelled));
    lemma_without(before.queue@, cancelled_ids(plan), id);
    if cancelled_ids(plan).contains(id) {
        let k = choose|k: int| 0 <= k < cancelled_ids(plan).len() && cancelled_ids(plan)[k] == id;
        let c = picked(list, Kind::Cancelled);
        lemma_picked(list, Kind::Cancelled);
        assert(plan.cancelled@[k].0 == jobs[c[k]].status.id);
        assert(jobs[c[k]].status.id == id);
        if c[k] < i {
            assert(jobs[c[k]].status.id < jobs[i].status.id);
        } else if i < c[k] {
            assert(jobs[i].status.id < jobs[c[k]].status.id);
        }
        assert(false);
    }
}

/// No deletion removes the record that an unfinished job waits for, through the
/// whole chain, nor one record of a pipeline that operates.
pub proof fn law_clean_keeps_what_a_job_needs(jobs: Seq<Job>, id: u128)
    requires
        deps::is_held(links_of(jobs), id),
    ensures
        clean_refusal(jobs, id) is Some,
{
}

/// After a removal no record of the memory names the removed job as its cause.
pub proof fn law_no_record_names_a_removed_cause(r: Removal, before: State, after: State, i: int)
    requires
        0 <= i < before.jobs@.len(),
        is_removal(r, before, after, i),
    ensures
        forall|k: int|
            0 <= k < after.jobs@.len() ==> (#[trigger] after.jobs@[k]).status.caused_by != Some(
                before.jobs@[i].status.id,
            ),
{
    let left = before.jobs@.remove(i);
    let cause = before.jobs@[i].status;
    assert forall|k: int| 0 <= k < after.jobs@.len() implies (
    #[trigger] after.jobs@[k]).status.caused_by != Some(cause.id) by {
        assert(detached(after.jobs@[k], left[k], cause));
    }
}

/// After a removal no dedupe key names the removed job, and where each key named
/// a job with a record, each key still does.
pub proof fn law_no_key_names_a_removed_job(r: Removal, before: State, after: State, i: int)
    requires
        0 <= i < before.jobs@.len(),
        is_removal(r, before, after, i),
        forall|k: int|
            0 <= k < before.keys@.len() ==> state::has_job(
                before.jobs@,
                (#[trigger] before.keys@[k]).id,
            ),
    ensures
        forall|k: int|
            0 <= k < after.keys@.len() ==> (#[trigger] after.keys@[k]).id
                != before.jobs@[i].status.id && state::has_job(after.jobs@, after.keys@[k].id),
{
    let id = before.jobs@[i].status.id;
    let left = before.jobs@.remove(i);
    state::lemma_keys_of_others(before.keys@, id);
    assert forall|k: int| 0 <= k < after.keys@.len() implies (#[trigger] after.keys@[k]).id != id
        && state::has_job(after.jobs@, after.keys@[k].id) by {
        let held = after.keys@[k];
        assert(before.keys@.contains(held));
        let j = choose|j: int| 0 <= j < before.keys@.len() && before.keys@[j] == held;
        assert(state::has_job(before.jobs@, before.keys@[j].id));
        let m = choose|m: int|
            0 <= m < before.jobs@.len() && (#[trigger] before.jobs@[m]).status.id == held.id;
        let at = if m < i {
            m
        } else {
            m - 1
        };
        assert(left[at] == before.jobs@[m]);
        assert(detached(after.jobs@[at], left[at], before.jobs@[i].status));
        assert(after.jobs@[at].status.id == held.id);
    }
}

/// Where the scope of an abort names a directory, a job whose directory is not
/// the same path, component by component, is outside of the scope: the abort
/// leaves its record and its place in the queue as they were.
pub proof fn law_an_abort_stays_in_its_directory(
    plan: AbortPlan,
    before: State,
    after: State,
    scope: AbortScope,
    boot: Seq<char>,
    faults: Seq<Option<String>>,
    now: u64,
    i: int,
)
    requires
        before.wf(),
        faults.len() == before.jobs@.len(),
        plans(plan, before.jobs@, after.jobs@, fates(before.jobs@, scope, boot, faults), now),
        after.queue@ == without(before.queue@, cancelled_ids(plan)),
        0 <= i < before.jobs@.len(),
        scope.cwd is Some,
        paths::components(before.jobs@[i].status.cwd@) != paths::components(scope.cwd->0@)
            || paths::rooted(before.jobs@[i].status.cwd@) != paths::rooted(scope.cwd->0@),
    ensures
        !scoped(before.jobs@[i], scope, boot),
        after.jobs@[i] == before.jobs@[i],
        after.queue@.contains(before.jobs@[i].status.id) == before.queue@.contains(
            before.jobs@[i].status.id,
        ),
{
    law_an_abort_changes_nothing_outside(plan, before, after, scope, boot, faults, now, i);
}

/// A job in another directory is outside of a scope, also where the one
/// directory lies in the other or the text of its path begins with the text of
/// the other path.
pub proof fn law_another_directory_is_outside(
    job: Job,
    scope: AbortScope,
    boot: Seq<char>,
    mine: Seq<Seq<char>>,
    theirs: Seq<Seq<char>>,
)
    requires
        mine.len() > 0,
        theirs.len() > 0,
        forall|i: int| 0 <= i < mine.len() ==> paths::plain_name(#[trigger] mine[i]),
        forall|i: int| 0 <= i < theirs.len() ==> paths::plain_name(#[trigger] theirs[i]),
        job.status.cwd@ == paths::from_root(mine),
        scope.cwd is Some,
        scope.cwd->0@ == paths::from_root(theirs),
        mine != theirs,
    ensures
        !scoped(job, scope, boot),
{
    paths::law_different_names_are_different_paths(mine, theirs);
}

/// Each part of a scope narrows it, and nothing else does: the directory, the
/// session within one start of the machine, and a tag in common. A scope with no
/// part reaches every job.
pub proof fn law_what_a_scope_reaches(job: Job, scope: AbortScope, boot: Seq<char>)
    ensures
        scope.cwd is None && scope.submitter is None && scope.tags@.len() == 0 ==> scoped(
            job,
            scope,
            boot,
        ),
        scoped(job, scope, boot) <==> {
            &&& scope.cwd is Some ==> paths::rooted(job.status.cwd@) == paths::rooted(
                scope.cwd->0@,
            ) && paths::components(job.status.cwd@) == paths::components(scope.cwd->0@)
            &&& scope.submitter is Some ==> job.status.boot_id is Some && job.status.boot_id->0@
                == boot && context::one_session(job.status.submitter@, scope.submitter->0@)
            &&& scope.tags@.len() > 0 ==> exists|i: int, j: int|
                0 <= i < scope.tags@.len() && 0 <= j < job.spec.tags@.len() && (
                #[trigger] scope.tags@[i])@ == (#[trigger] job.spec.tags@[j])@
        },
{
    lemma_meet(scope.tags@, job.spec.tags@);
}

proof fn lemma_meet(a: Seq<String>, b: Seq<String>)
    ensures
        meet(a, b) <==> exists|i: int, j: int|
            0 <= i < a.len() && 0 <= j < b.len() && (#[trigger] a[i])@ == (#[trigger] b[j])@,
{
    if meet(a, b) {
        let i = choose|i: int| 0 <= i < a.len() && text::views(b).contains(#[trigger] a[i]@);
        let j = text::views(b).index_of(a[i]@);
        assert(text::views(b)[j] == b[j]@);
        assert(a[i]@ == b[j]@);
    }
    if exists|i: int, j: int|
        0 <= i < a.len() && 0 <= j < b.len() && (#[trigger] a[i])@ == (#[trigger] b[j])@ {
        let (i, j) = choose|i: int, j: int|
            0 <= i < a.len() && 0 <= j < b.len() && (#[trigger] a[i])@ == (#[trigger] b[j])@;
        assert(text::views(b)[j] == b[j]@);
        assert(text::views(b).contains(a[i]@));
    }
}

/// A finished job with a record can be deleted exactly where no job that has not
/// stopped waits for it through a chain or has its group.
pub proof fn law_a_free_record_can_go(jobs: Seq<Job>, id: u128, i: int)
    requires
        state::in_id_order(jobs),
        0 <= i < jobs.len(),
        jobs[i].status.id == id,
    ensures
        clean_refusal(jobs, id) is None <==> jobs[i].status.state.is_final() && forall|k: int|
            0 <= k < jobs.len() && !(#[trigger] jobs[k]).status.state.is_final() ==> !deps::waits_for(
                links_of(jobs),
                k,
                id,
            ) && (jobs[k].status.group is None || jobs[k].status.group != jobs[i].status.group),
{
    let nodes = links_of(jobs);
    state::law_a_job_is_found_by_its_id(jobs, id, i as nat);
    assert forall|k: int| 0 <= k < jobs.len() implies #[trigger] nodes[k] == link_of(jobs[k]) by {}
    assert forall|k: int| 0 <= k < i implies (#[trigger] nodes[k]).id != id by {
        assert(jobs[k].status.id < jobs[i].status.id);
    }
    deps::law_the_group_is_the_one_of_the_record(nodes, id, i);
    deps::law_nothing_else_holds_a_record(nodes, id);
    if deps::is_held(nodes, id) {
        let k = choose|k: int|
            0 <= k < nodes.len() && !(#[trigger] nodes[k]).terminal && (deps::waits_for(
                nodes,
                k,
                id,
            ) || (nodes[k].group is Some && nodes[k].group == deps::group_of(nodes, id)));
        assert(!jobs[k].status.state.is_final());
    } else {
        assert forall|k: int|
            0 <= k < jobs.len() && !(#[trigger] jobs[k]).status.state.is_final() implies !deps::waits_for(
            nodes,
            k,
            id,
        ) && (jobs[k].status.group is None || jobs[k].status.group != jobs[i].status.group) by {
            assert(!nodes[k].terminal);
        }
    }
}

/// Each job that a refused deletion names as a holder has not stopped, and it
/// waits for the job or has its group.
pub proof fn law_a_named_holder_holds(jobs: Seq<Job>, id: u128, i: int, h: u128)
    requires
        state::in_id_order(jobs),
        0 <= i < jobs.len(),
        jobs[i].status.id == id,
    ensures
        deps::held(links_of(jobs), id).1.contains(h) ==> exists|k: int|
            0 <= k < jobs.len() && (#[trigger] jobs[k]).status.id == h
                && !jobs[k].status.state.is_final() && jobs[k].status.group is Some
                && jobs[k].status.group == jobs[i].status.group,
        deps::held(links_of(jobs), id).0.contains(h) ==> exists|k: int|
            0 <= k < jobs.len() && (#[trigger] jobs[k]).status.id == h
                && !jobs[k].status.state.is_final() && deps::waits_for(links_of(jobs), k, id),
{
    let nodes = links_of(jobs);
    assert forall|k: int| 0 <= k < jobs.len() implies #[trigger] nodes[k] == link_of(jobs[k]) by {}
    assert forall|k: int| 0 <= k < i implies (#[trigger] nodes[k]).id != id by {
        assert(jobs[k].status.id < jobs[i].status.id);
    }
    deps::law_the_group_is_the_one_of_the_record(nodes, id, i);
    deps::law_a_holder_has_a_reason(nodes, id, h);
    if deps::held(nodes, id).1.contains(h) {
        let k = choose|k: int|
            0 <= k < nodes.len() && (#[trigger] nodes[k]).id == h && !nodes[k].terminal
                && nodes[k].group is Some && nodes[k].group == deps::group_of(nodes, id);
        assert(jobs[k].status.id == h);
    }
    if deps::held(nodes, id).0.contains(h) {
        let k = choose|k: int|
            0 <= k < nodes.len() && (#[trigger] nodes[k]).id == h && !nodes[k].terminal
                && deps::waits_for(nodes, k, id);
        assert(jobs[k].status.id == h);
    }
}

/// The rules of the records read of each job what its record says.
pub proof fn law_the_rules_read_the_record(jobs: Seq<Job>, k: int)
    requires
        0 <= k < jobs.len(),
    ensures
        links_of(jobs).len() == jobs.len(),
        links_of(jobs)[k].id == jobs[k].status.id,
        links_of(jobs)[k].group == jobs[k].status.group,
        links_of(jobs)[k].terminal == jobs[k].status.state.is_final(),
        links_of(jobs)[k].needs == jobs[k].spec.needs@,
        links_of(jobs)[k].after == jobs[k].spec.after@,
{
}

/// A kill reaches a job exactly when the job operates and its process is known.
/// A job that waits, that stopped or that starts gives the answer that the
/// command does not fit its state, and an id with no record the answer that
/// there is no such job.
pub proof fn law_whom_a_kill_reaches(jobs: Seq<Job>, id: u128, i: int)
    requires
        state::in_id_order(jobs),
        0 <= i < jobs.len(),
    ensures
        jobs[i].status.id == id ==> {
            &&& kill_target(jobs, id) is Ok <==> jobs[i].status.state.is_alive()
                && jobs[i].status.pid is Some
            &&& kill_target(jobs, id) is Ok ==> kill_target(jobs, id)->Ok_0.pid
                == jobs[i].status.pid->0 && kill_target(jobs, id)->Ok_0.start
                == jobs[i].status.pid_start_token
            &&& kill_target(jobs, id) is Err ==> kill_target(jobs, id)->Err_0.0
                == ErrorKind::WrongState
        },
        (forall|k: int| 0 <= k < jobs.len() ==> (#[trigger] jobs[k]).status.id != id)
            ==> kill_target(jobs, id) is Err && kill_target(jobs, id)->Err_0.0
            == ErrorKind::NoSuchJob,
        jobs[i].status.id == id ==> forall|pid: i32| #[trigger]
            still_its_pid(jobs, id, pid) <==> jobs[i].status.state.is_alive() && jobs[i].status.pid
                == Some(pid),
{
    state::law_a_job_is_found_by_its_id(jobs, id, i as nat);
    job::law_the_kinds_of_states(jobs[i].status.state);
}

/// A number names the signal with that number, from 1 to 64, and no other
/// number names one.
pub proof fn law_a_number_names_its_signal(n: nat, numbers: Signals)
    ensures
        1 <= n <= 64 ==> signal_of(text::digits(n), numbers) == Ok::<int, Seq<char>>(n as int),
        (n == 0 || 64 < n <= 0x7fff_ffff) ==> signal_of(text::digits(n), numbers) is Err,
{
    reveal_strlit("SIG");
    text::law_a_number_is_read_as_it_is_written(n, 0x7fff_ffff);
    lemma_digits_stay(n);
    let d = text::digits(n);
    assert(d[0] != '-' && d[0] != 'S');
    assert(!text::begins(d, "SIG"@)) by {
        if text::begins(d, "SIG"@) {
            assert(d.subrange(0, 3)[0] == d[0]);
        }
    }
}

proof fn lemma_digits_stay(n: nat)
    ensures
        text::digits(n).len() > 0,
        '0' <= text::digits(n)[0] <= '9',
        text::raised(text::trimmed(text::digits(n))) == text::digits(n),
{
    let d = text::digits(n);
    lemma_all_digits(n);
    text::lemma_lead(d, 0);
    text::lemma_last_solid(d, d.len() as int);
    assert(text::trimmed(d) == d);
    assert(text::raised(d) == d);
}

proof fn lemma_all_digits(n: nat)
    ensures
        text::digits(n).len() > 0,
        forall|k: int| 0 <= k < text::digits(n).len() ==> '0' <= #[trigger] text::digits(n)[k] <= '9',
    decreases n,
{
    if n >= 10 {
        lemma_all_digits(n / 10);
    }
}

/// White space around the name of a signal, small letters and `SIG` before it
/// change nothing.
pub proof fn law_the_forms_of_a_signal_name(s: Seq<char>, numbers: Signals)
    ensures
        signal_word(s) == signal_word(text::raised(text::trimmed(s))),
        signal_of(s, numbers) == signal_of(text::raised(text::trimmed(s)), numbers),
        !text::begins(text::raised(text::trimmed(s)), "SIG"@) ==> signal_word(s) == text::raised(
            text::trimmed(s),
        ),
{
    let t = text::trimmed(s);
    text::law_only_white_ends_go(s);
    let u = text::raised(t);
    assert(u.len() == t.len());
    if t.len() > 0 {
        assert(!text::white(u[0])) by {
            assert(u[0] == text::capital(t[0]));
        }
        assert(!text::white(u.last())) by {
            assert(u.last() == text::capital(t.last()));
        }
        text::lemma_lead(u, 0);
        text::lemma_last_solid(u, u.len() as int);
        assert(text::trimmed(u) == u);
    } else {
        assert(u == Seq::<char>::empty());
        assert(text::trimmed(u) == u);
    }
    assert(text::raised(u) == u) by {
        assert forall|k: int| 0 <= k < u.len() implies text::raised(u)[k] == u[k] by {
            text::law_only_ascii_letters_change(t, k);
        }
    }
}

/// An abort cancels a job at this moment with no error text, and nothing else in
/// the record changes.
pub proof fn law_what_a_cancel_writes(next: JobStatus, before: JobStatus, now: u64)
    requires
        cancelled_record(next, before, now),
    ensures
        next.state == JobState::Cancelled,
        next.finished_at == Some(now),
        next.error is None,
        next.blocked_reason is None,
        next.id == before.id && next.name@ == before.name@ && next.cwd@ == before.cwd@,
        next.group == before.group && next.needs@ == before.needs@ && next.after@ == before.after@,
        next.exit_code == before.exit_code && next.signal == before.signal && next.started_at
            == before.started_at && next.submitted_at == before.submitted_at,
        text::views(next.tags@) == text::views(before.tags@) && text::views(next.command@)
            == text::views(before.command@),
{
}

/// The queue loses exactly the ids that go, and the others keep their order.
pub proof fn law_the_queue_keeps_the_others(queue: Seq<u128>, id: u128, gone: Seq<u128>)
    ensures
        gone.contains(id) ==> without(queue.push(id), gone) == without(queue, gone),
        !gone.contains(id) ==> without(queue.push(id), gone) == without(queue, gone).push(id),
        without(Seq::empty(), gone).len() == 0,
{
    assert(queue.push(id).drop_last() == queue);
}

/// A removal takes one record away and no other one: each other record stays in
/// its order, and only one that names the removed job as its cause changes, in
/// its error text and its cause.
pub proof fn law_a_removal_takes_one_record(r: Removal, before: State, after: State, i: int, k: int)
    requires
        0 <= i < before.jobs@.len(),
        is_removal(r, before, after, i),
        0 <= k < before.jobs@.len(),
        k != i,
    ensures
        after.jobs@.len() == before.jobs@.len() - 1,
        r.status == before.jobs@[i].status,
        ({
            let now = after.jobs@[if k < i {
                k
            } else {
                k - 1
            }];
            let was = before.jobs@[k];
            &&& was.status.caused_by != Some(before.jobs@[i].status.id) ==> now == was
            &&& was.status.caused_by == Some(before.jobs@[i].status.id) ==> now.status.caused_by
                is None && now.status.error is Some && now.status.id == was.status.id
                && now.status.state == was.status.state && now.spec == was.spec
        }),
        forall|id: u128| #[trigger]
            after.queue@.contains(id) <==> before.queue@.contains(id) && id
                != before.jobs@[i].status.id,
{
    let left = before.jobs@.remove(i);
    let place = if k < i {
        k
    } else {
        k - 1
    };
    assert(left[place] == before.jobs@[k]);
    assert(detached(after.jobs@[place], left[place], before.jobs@[i].status));
    let gone = seq![before.jobs@[i].status.id];
    assert forall|id: u128| #[trigger]
        after.queue@.contains(id) <==> before.queue@.contains(id) && id
            != before.jobs@[i].status.id by {
        lemma_without(before.queue@, gone, id);
        assert(gone[0] == before.jobs@[i].status.id);
        assert(gone.contains(id) <==> id == before.jobs@[i].status.id);
    }
}

/// After an abort the queue is paused. A pause that a person made earlier stays
/// as it is; a new one has no end, and it says that the abort made it now.
pub proof fn law_an_abort_pauses_the_queue(before: Paused, after: Paused, by_pid: i32, now: u64)
    requires
        abort_pause(before, after, by_pid, now),
    ensures
        after.queue@.len() > 0,
        before.queue@.len() > 0 ==> after == before,
        before.queue@.len() == 0 ==> after.queue@.len() == 1 && after.queue@[0].until is None
            && after.queue@[0].paused_at == now && after.queue@[0].by_pid == by_pid
            && !after.queue@[0].fault && after.queue_since == Some(now) && after.queue@[0].reason
            is Some && after.queue@[0].reason->0@ == "qex abort"@,
        after.locks == before.locks,
{
}

/// One more try puts its job in one list: among the signalled where no answer
/// refused it, among the jobs to try again where the job starts and there is
/// time, and among those that did not stop otherwise, with the answer.
pub proof fn law_where_a_try_puts_a_job(pending: Seq<(u128, String)>, tries: Seq<Stop>, n: nat)
    requires
        n < pending.len(),
        n < tries.len(),
    ensures
        ({
            let t = tries[n as int];
            let id = pending[n as int].0;
            let name = pending[n as int].1@;
            let s = signalled(pending, tries, n);
            let l = later(pending, tries, n);
            let x = not_stopped(pending, tries, n);
            let again = t.refused is Some && t.starting && !t.late;
            &&& signalled(pending, tries, n + 1) == if t.refused is None {
                s.push(id)
            } else {
                s
            }
            &&& later(pending, tries, n + 1) == if again {
                l.push((id, name))
            } else {
                l
            }
            &&& not_stopped(pending, tries, n + 1) == if t.refused is Some && !again {
                x.push((id, name, t.refused->0.message@))
            } else {
                x
            }
        }),
        signalled(pending, tries, 0).len() == 0 && later(pending, tries, 0).len() == 0
            && not_stopped(pending, tries, 0).len() == 0,
{
}

/// A job is in the scope of an abort only where its directory is the directory
/// of the scope, component by component, where it is of the session and the
/// start of the machine that the scope names, and where it has a tag of the
/// scope; and it is then.
pub proof fn law_which_jobs_are_in_scope(job: &Job, scope: &AbortScope, boot: &str, r: bool)
    requires
        call_ensures(in_scope, (job, scope, boot), r),
    ensures
        r <==> {
            &&& scope.cwd is Some ==> paths::rooted(job.status.cwd@) == paths::rooted(
                scope.cwd->0@,
            ) && paths::components(job.status.cwd@) == paths::components(scope.cwd->0@)
            &&& scope.submitter is Some ==> job.status.boot_id is Some && job.status.boot_id->0@
                == boot@ && context::one_session(job.status.submitter@, scope.submitter->0@)
            &&& scope.tags@.len() > 0 ==> exists|i: int, j: int|
                0 <= i < scope.tags@.len() && 0 <= j < job.spec.tags@.len() && (
                #[trigger] scope.tags@[i])@ == (#[trigger] job.spec.tags@[j])@
        },
{
    law_what_a_scope_reaches(*job, *scope, boot@);
}

/// The last test before a deletion lets a record go exactly where its job
/// stopped, and no job that has not stopped waits for it or has its group.
pub proof fn law_which_records_can_go(jobs: &Vec<Job>, id: u128, i: int, r: Result<(), Refusal>)
    requires
        call_ensures(check_clean, (jobs, id), r),
        state::in_id_order(jobs@),
        0 <= i < jobs@.len(),
        jobs@[i].status.id == id,
    ensures
        r is Ok <==> jobs@[i].status.state.is_final() && forall|k: int|
            0 <= k < jobs@.len() && !(#[trigger] jobs@[k]).status.state.is_final()
                ==> !deps::waits_for(links_of(jobs@), k, id) && (jobs@[k].status.group is None
                || jobs@[k].status.group != jobs@[i].status.group),
        r is Err ==> r->Err_0.kind == ErrorKind::WrongState,
{
    law_a_free_record_can_go(jobs@, id, i);
    state::law_a_job_is_found_by_its_id(jobs@, id, i as nat);
}

/// A kill gives a group exactly where the job operates with a known process, and
/// it is the group of that process.
pub proof fn law_what_a_kill_gives(state: &State, id: u128, i: int, r: Result<Group, Refusal>)
    requires
        call_ensures(kill, (state, id), r),
        state.wf(),
        0 <= i < state.jobs@.len(),
        state.jobs@[i].status.id == id,
    ensures
        r is Ok <==> state.jobs@[i].status.state.is_alive() && state.jobs@[i].status.pid is Some,
        r is Ok ==> r->Ok_0.pid == state.jobs@[i].status.pid->0 && r->Ok_0.start
            == state.jobs@[i].status.pid_start_token,
        r is Err ==> r->Err_0.kind == ErrorKind::WrongState,
{
    law_whom_a_kill_reaches(state.jobs@, id, i);
}

/// A `KILL` follows each other signal where there is a grace time. It goes out
/// only while the job still operates with the process of the first signal, and
/// that process is alive and the same one.
pub proof fn law_when_a_kill_follows(
    signal: i32,
    grace_secs: u64,
    follows: bool,
    state: &State,
    i: int,
    group: Group,
    alive: bool,
    same_start: bool,
    goes: bool,
)
    requires
        call_ensures(needs_kill, (signal, grace_secs), follows),
        state.wf(),
        0 <= i < state.jobs@.len(),
        call_ensures(may_kill, (state, state.jobs@[i].status.id, group, alive, same_start), goes),
    ensures
        follows <==> signal != 9 && grace_secs > 0,
        goes <==> alive && same_start && state.jobs@[i].status.state.is_alive()
            && state.jobs@[i].status.pid == Some(group.pid),
{
    law_whom_a_kill_reaches(state.jobs@, state.jobs@[i].status.id, i);
}

/// `SIG` before the name of a signal changes nothing.
pub proof fn law_sig_before_a_name(s: Seq<char>, w: Seq<char>)
    requires
        w.len() > 0,
        w[0] != 'S',
        text::raised(text::trimmed(s)) == w || text::raised(text::trimmed(s)) == seq!['S', 'I', 'G']
            + w,
    ensures
        signal_word(s) == w,
{
    reveal_strlit("SIG");
    assert("SIG"@ == seq!['S', 'I', 'G']);
    let t = text::raised(text::trimmed(s));
    if t == w {
        if text::begins(t, "SIG"@) {
            assert(t.subrange(0, 3)[0] == t[0]);
        }
    } else {
        assert(t.subrange(0, 3) == "SIG"@);
        assert(t.skip(3) == w);
    }
}

/// Each of the seven names gives the number of its signal, and any other word
/// that is no number is refused.
pub proof fn law_which_signal_a_name_gives(s: &str, numbers: &Signals, r: Result<i32, String>)
    requires
        call_ensures(parse_signal_by, (s, numbers), r),
    ensures
        ({
            let w = signal_word(s@);
            &&& w == "TERM"@ ==> r == Ok::<i32, String>(numbers.term)
            &&& w == "KILL"@ ==> r == Ok::<i32, String>(numbers.kill)
            &&& w == "INT"@ ==> r == Ok::<i32, String>(numbers.interrupt)
            &&& w == "HUP"@ ==> r == Ok::<i32, String>(numbers.hup)
            &&& w == "QUIT"@ ==> r == Ok::<i32, String>(numbers.quit)
            &&& w == "USR1"@ ==> r == Ok::<i32, String>(numbers.usr1)
            &&& w == "USR2"@ ==> r == Ok::<i32, String>(numbers.usr2)
            &&& w != "TERM"@ && w != "KILL"@ && w != "INT"@ && w != "HUP"@ && w != "QUIT"@ && w
                != "USR1"@ && w != "USR2"@ && w.len() > 0 && w[0] != '+' && w[0] != '-' && !('0'
                <= w[0] <= '9') ==> r is Err
        }),
{
    let w = signal_word(s@);
    if w.len() > 0 && w[0] != '+' && w[0] != '-' && !('0' <= w[0] <= '9') {
        text::law_only_digits_make_a_number(w, 0x7fff_ffff, 0);
    }
    lemma_signal_names();
}

proof fn lemma_signal_names()
    ensures
        "TERM"@.len() == 4 && "TERM"@[0] == 'T',
        "KILL"@.len() == 4 && "KILL"@[0] == 'K',
        "INT"@.len() == 3 && "INT"@[0] == 'I',
        "HUP"@.len() == 3 && "HUP"@[0] == 'H',
        "QUIT"@.len() == 4 && "QUIT"@[0] == 'Q',
        "USR1"@.len() == 4 && "USR1"@[0] == 'U' && "USR1"@[3] == '1',
        "USR2"@.len() == 4 && "USR2"@[0] == 'U' && "USR2"@[3] == '2',
{
    reveal_strlit("TERM");
    reveal_strlit("KILL");
    reveal_strlit("INT");
    reveal_strlit("HUP");
    reveal_strlit("QUIT");
    reveal_strlit("USR1");
    reveal_strlit("USR2");
}

/// An abort that keeps the jobs that operate signals none of them and says that
/// they continue; any other abort has all of them to signal.
pub proof fn law_what_an_abort_begins_with(
    plan: AbortPlan,
    keep_running: bool,
    r: (Aborted, Vec<(u128, String)>),
)
    requires
        call_ensures(begin_abort, (plan, keep_running), r),
    ensures
        keep_running ==> r.1@.len() == 0 && r.0.continues@.len() == plan.running@.len(),
        !keep_running ==> r.1@ == plan.running@ && r.0.continues@.len() == 0,
        r.0.cancelled == plan.cancelled@.len() && r.0.outside == plan.outside
            && r.0.not_cancelled@ == plan.not_cancelled@,
        r.0.signalled@.len() == 0 && r.0.not_stopped@.len() == 0,
{
}

/// A job starts now exactly where it left the queue and has no process yet.
pub proof fn law_which_jobs_start_now(state: &State, i: int, r: bool)
    requires
        state.wf(),
        0 <= i < state.jobs@.len(),
        call_ensures(starts_now, (state, state.jobs@[i].status.id), r),
    ensures
        r <==> state.jobs@[i].status.state.is_alive() && state.jobs@[i].status.pid is None,
{
    state::law_a_job_is_found_by_its_id(state.jobs@, state.jobs@[i].status.id, i as nat);
    job::law_the_kinds_of_states(state.jobs@[i].status.state);
}

/// A group with no process is a job that stopped in the moment before; every
/// other error of a signal is a fault of qex.
pub proof fn law_what_a_failed_signal_means(
    id: u128,
    error: Option<i32>,
    why: &str,
    codes: &Errors,
    r: Refusal,
)
    requires
        call_ensures(signal_fault_by, (id, error, why, codes), r),
    ensures
        r.kind == ErrorKind::WrongState <==> error == Some(codes.srch),
        r.kind == ErrorKind::Internal <==> error != Some(codes.srch),
{
}

/// What an abort does to each job. A job that stopped, and a job outside of the
/// scope, stays as it was, with its place in the queue. A job of the scope that
/// waited is cancelled and out of the queue, or its record could not be written.
/// A job of the scope that operates is one to signal.
pub proof fn law_what_an_abort_does_to_a_job<S: Fn(&Paused), W: Fn(&JobStatus) -> Option<String>>(
    state: &mut State,
    scope: &AbortScope,
    by_pid: i32,
    boot: &str,
    now: u64,
    save: S,
    write: W,
    r: AbortPlan,
    i: int,
)
    requires
        old(state).wf(),
        call_ensures(plan_abort::<S, W>, (state, scope, by_pid, boot, now, save, write), r),
        0 <= i < old(state).jobs@.len(),
    ensures
        final(state).jobs@.len() == old(state).jobs@.len(),
        final(state).paused.queue@.len() > 0,
        old(state).jobs@[i].status.state.is_final() || !scoped(old(state).jobs@[i], *scope, boot@)
            ==> final(state).jobs@[i] == old(state).jobs@[i] && final(state).queue@.contains(
            old(state).jobs@[i].status.id,
        ) == old(state).queue@.contains(old(state).jobs@[i].status.id),
        old(state).jobs@[i].status.state.is_alive() ==> final(state).jobs@[i] == old(state).jobs@[i],
        !old(state).jobs@[i].status.state.is_final() && scoped(old(state).jobs@[i], *scope, boot@)
            ==> {
            let id = old(state).jobs@[i].status.id;
            ||| final(state).jobs@[i].status.state == JobState::Cancelled && !final(state).queue@.contains(id)
            ||| final(state).jobs@[i] == old(state).jobs@[i] && exists|k: int|
                0 <= k < r.not_cancelled@.len() && (#[trigger] r.not_cancelled@[k]).id == id
            ||| final(state).jobs@[i] == old(state).jobs@[i] && exists|k: int|
                0 <= k < r.running@.len() && (#[trigger] r.running@[k]).0 == id
        },
{
    let jobs = old(state).jobs@;
    let faults = choose|faults: Seq<Option<String>>| #[trigger]
        write_faults(write, jobs, *scope, boot@, now, faults) && plans(
            r,
            jobs,
            final(state).jobs@,
            fates(jobs, *scope, boot@, faults),
            now,
        );
    if jobs[i].status.state.is_final() || !scoped(jobs[i], *scope, boot@) {
        law_an_abort_changes_nothing_outside(
            r,
            *old(state),
            *final(state),
            *scope,
            boot@,
            faults,
            now,
            i,
        );
    } else {
        law_an_abort_reaches_its_scope(
            r,
            *old(state),
            *final(state),
            *scope,
            boot@,
            faults,
            by_pid,
            now,
            i,
        );
    }
    if jobs[i].status.state.is_alive() {
        assert(!(fates(jobs, *scope, boot@, faults)[i] is Cancelled));
    }
}

/// An abort of one directory leaves each job of another directory as it was: its
/// record and its place in the queue.
pub proof fn law_an_abort_leaves_other_directories<
    S: Fn(&Paused),
    W: Fn(&JobStatus) -> Option<String>,
>(
    state: &mut State,
    scope: &AbortScope,
    by_pid: i32,
    boot: &str,
    now: u64,
    save: S,
    write: W,
    r: AbortPlan,
    i: int,
)
    requires
        old(state).wf(),
        call_ensures(plan_abort::<S, W>, (state, scope, by_pid, boot, now, save, write), r),
        0 <= i < old(state).jobs@.len(),
        scope.cwd is Some,
        paths::components(old(state).jobs@[i].status.cwd@) != paths::components(scope.cwd->0@)
            || paths::rooted(old(state).jobs@[i].status.cwd@) != paths::rooted(scope.cwd->0@),
    ensures
        final(state).jobs@[i] == old(state).jobs@[i],
        final(state).queue@.contains(old(state).jobs@[i].status.id) == old(state).queue@.contains(
            old(state).jobs@[i].status.id,
        ),
{
    law_what_an_abort_does_to_a_job(state, scope, by_pid, boot, now, save, write, r, i);
}

/// A deletion removes the record of the job and no other one, or it is refused
/// and changes nothing. It is refused exactly where the job has not stopped, or
/// where a job that has not stopped waits for it or has its group.
pub proof fn law_what_a_deletion_does(
    state: &mut State,
    id: u128,
    now: u64,
    r: Result<Removal, Refusal>,
    i: int,
    k: int,
)
    requires
        old(state).wf(),
        call_ensures(clean, (state, id, now), r),
        0 <= i < old(state).jobs@.len(),
        old(state).jobs@[i].status.id == id,
        0 <= k < old(state).jobs@.len(),
        k != i,
    ensures
        r is Ok <==> old(state).jobs@[i].status.state.is_final() && forall|m: int|
            0 <= m < old(state).jobs@.len() && !(#[trigger] old(state).jobs@[m]).status.state.is_final() ==> !deps::waits_for(
                links_of(old(state).jobs@),
                m,
                id,
            ) && (old(state).jobs@[m].status.group is None || old(state).jobs@[m].status.group
                != old(state).jobs@[i].status.group),
        r is Err ==> *final(state) == *old(state),
        r is Ok ==> r->Ok_0.status == old(state).jobs@[i].status && final(state).jobs@.len() == old(state).jobs@.len() - 1 && final(state).jobs@[if k < i {
            k
        } else {
            k - 1
        }].status.id == old(state).jobs@[k].status.id && !final(state).queue@.contains(id),
{
    law_a_free_record_can_go(old(state).jobs@, id, i);
    state::law_a_job_is_found_by_its_id(old(state).jobs@, id, i as nat);
    if r is Ok {
        law_a_removal_takes_one_record(r->Ok_0, *old(state), *final(state), i, k);
    }
}

/// Each round of an abort answers for every job that was still to signal, and
/// keeps the answers of the rounds before.
pub proof fn law_a_round_of_an_abort<F: Fn(u128) -> Stop>(
    answer: &mut Aborted,
    pending: Vec<(u128, String)>,
    stop: F,
    r: Vec<(u128, String)>,
)
    requires
        call_ensures(abort::<F>, (answer, pending, stop), r),
    ensures
        final(answer).signalled@.len() + final(answer).not_stopped@.len() + r@.len() == old(answer).signalled@.len() + old(answer).not_stopped@.len() + pending@.len(),
        old(answer).signalled@ == final(answer).signalled@.take(
            old(answer).signalled@.len() as int,
        ),
        final(answer).cancelled == old(answer).cancelled && final(answer).outside == old(answer).outside,
{
    let tries = choose|tries: Seq<Stop>| #[trigger]
        tried(stop, pending@, tries) && {
            &&& final(answer).signalled@ == old(answer).signalled@ + signalled(
                pending@,
                tries,
                pending@.len(),
            )
            &&& pairs(r@) == later(pending@, tries, pending@.len())
            &&& reports(final(answer).not_stopped@) == reports(old(answer).not_stopped@)
                + not_stopped(pending@, tries, pending@.len())
        };
    law_each_job_gets_one_answer(pending@, tries, pending@.len());
    assert(pairs(r@).len() == r@.len());
    assert(reports(final(answer).not_stopped@).len() == final(answer).not_stopped@.len());
    assert(reports(old(answer).not_stopped@).len() == old(answer).not_stopped@.len());
}

/// A job is cancelled in memory only where the write of its cancelled record
/// worked, and it stays in the queue where the write gave a fault.
pub proof fn law_the_disk_comes_before_the_memory<
    S: Fn(&Paused),
    W: Fn(&JobStatus) -> Option<String>,
>(
    state: &mut State,
    scope: &AbortScope,
    by_pid: i32,
    boot: &str,
    now: u64,
    save: S,
    write: W,
    r: AbortPlan,
    i: int,
)
    requires
        old(state).wf(),
        call_ensures(plan_abort::<S, W>, (state, scope, by_pid, boot, now, save, write), r),
        0 <= i < old(state).jobs@.len(),
        scoped(old(state).jobs@[i], *scope, boot@),
        old(state).jobs@[i].status.state == JobState::Queued,
    ensures
        exists|next: JobStatus, fault: Option<String>|
            next.state == JobState::Cancelled && next.id == old(state).jobs@[i].status.id
                && #[trigger] call_ensures(write, (&next,), fault) && (fault is None ==> final(state).jobs@[i].status.state == JobState::Cancelled) && (fault is Some ==> final(state).jobs@[i] == old(state).jobs@[i]),
        call_ensures(save, (&final(state).paused,), ()),
{
    let jobs = old(state).jobs@;
    let faults = choose|faults: Seq<Option<String>>| #[trigger]
        write_faults(write, jobs, *scope, boot@, now, faults) && plans(
            r,
            jobs,
            final(state).jobs@,
            fates(jobs, *scope, boot@, faults),
            now,
        );
    let list = fates(jobs, *scope, boot@, faults);
    assert(written(write, jobs[i].status, now, faults[i]));
    let next = choose|next: JobStatus|
        cancelled_record(next, jobs[i].status, now) && #[trigger] call_ensures(
            write,
            (&next,),
            faults[i],
        );
    assert(list[i] == fate(jobs[i], *scope, boot@, faults[i]));
    assert(final(state).jobs@[i] == final(state).jobs@[i]);
    assert(next.state == JobState::Cancelled && call_ensures(write, (&next,), faults[i]));
}

} // verus!

//! The command that qex starts when a job stops.
//!
//! The hook runs one time for each job, and never two: the process that makes
//! the claim file of the job runs it, and the system gives that file to one
//! process only. A hook that fails changes no job, and it has a limit on its
//! time and on the size of its output.

use crate::ids;
use crate::job;
use crate::job::{JobState, JobStatus};
use crate::paths;
use crate::text;
use crate::units;
use vstd::prelude::*;
use vstd::string::*;

verus! {

/// The name of the file that says that the hook of this job ran.
pub const CLAIM_FILE: &'static str = "hook.ran";

/// The name of the file that holds the output of the hook.
pub const LOG_FILE: &'static str = "hook.log";

/// The time that a hook gets after `TERM` and before `KILL`, in seconds.
pub const GRACE: u64 = 2;

/// The maximum size of the log of the hook, in bytes.
pub const OUTPUT_LIMIT: u64 = 1_048_576;

/// Which process ran the hook.
#[derive(Clone, Copy, Debug, PartialEq, Eq, Structural)]
pub enum Origin {
    /// The supervisor of the job. It exists for each job that ran.
    Supervisor,
    /// The coordinator. It notifies for the jobs that have no supervisor, and
    /// for a supervisor that left no result.
    Coordinator,
}

impl Origin {
    /// The word for the process.
    pub open spec fn word(self) -> Seq<char> {
        match self {
            Origin::Supervisor => "supervisor"@,
            Origin::Coordinator => "coordinator"@,
        }
    }

    /// The word that goes in the claim file.
    pub fn as_str(self) -> (r: &'static str)
        ensures
            r@ == self.word(),
    {
        match self {
            Origin::Supervisor => "supervisor",
            Origin::Coordinator => "coordinator",
        }
    }
}

// ---------------------------------------------------------------------------
// When the hook runs.
// ---------------------------------------------------------------------------

/// What the config file says about the hook.
#[derive(Debug)]
pub struct Hooks {
    /// The program and its arguments. An empty list is no hook.
    pub on_stop: Vec<String>,
    /// The states that give a message.
    pub on_stop_states: Vec<String>,
}

/// True when a job that is in the state runs the hook.
pub open spec fn wanted(hooks: Hooks, state: JobState) -> bool {
    &&& hooks.on_stop@.len() > 0
    &&& state.is_final()
    &&& text::views(hooks.on_stop_states@).contains(state.word())
}

/// Tests if a job runs the hook, where the process gets the claim. A job that is
/// not in its final state never does.
pub fn fire(hooks: &Hooks, state: JobState) -> (r: bool)
    ensures
        r == wanted(*hooks, state),
{
    hooks.on_stop.len() > 0 && state.is_terminal() && text::contains(
        &hooks.on_stop_states,
        state.as_str(),
    )
}

/// What came of the claim file.
#[derive(Debug)]
pub enum ClaimFile {
    /// This process made the file.
    Made,
    /// The file was there.
    Taken,
    /// The file could not be made. The text says why.
    Fault(String),
}

/// Tests if this process runs the hook: it made the claim file itself. The text
/// goes to the log where the file could not be made, because qex then cannot
/// prove that the hook runs one time only.
pub fn claim(file: &ClaimFile, id: u128, dir: &str) -> (r: (bool, Option<String>))
    ensures
        r.0 == (*file is Made),
        text::opt_view(r.1) == match *file {
            ClaimFile::Fault(e) => Some(
                "qex did not run the stop hook of the job "@ + ids::hyphenated(id as nat)
                    + ": it could not write "@ + paths::joined(dir@, CLAIM_FILE@) + " ("@ + e@
                    + ")"@,
            ),
            _ => None,
        },
{
    match file {
        ClaimFile::Made => (true, None),
        ClaimFile::Taken => (false, None),
        ClaimFile::Fault(e) => {
            let mut m = text::owned("qex did not run the stop hook of the job ");
            m.append(ids::id_text(id).as_str());
            m.append(": it could not write ");
            m.append(paths::join(dir, CLAIM_FILE).as_str());
            m.append(" (");
            m.append(e.as_str());
            m.append(")");
            (false, Some(m))
        },
    }
}

/// The line of the claim file: the state, the id, the time, and the process that
/// took the claim.
pub fn claim_line(status: &JobStatus, now: u64, origin: Origin) -> (r: String)
    ensures
        r@ == status.state.word() + " "@ + ids::hyphenated(status.id as nat) + " "@ + text::digits(
            now as nat,
        ) + " "@ + origin.word() + "\n"@,
{
    let mut m = text::owned(status.state.as_str());
    m.append(" ");
    m.append(ids::id_text(status.id).as_str());
    m.append(" ");
    m.append(text::decimal(now).as_str());
    m.append(" ");
    m.append(origin.as_str());
    m.append("\n");
    m
}

// ---------------------------------------------------------------------------
// What the hook gets.
// ---------------------------------------------------------------------------

/// The directory in which the hook starts: the directory of the job, or the root
/// where that one is not there.
pub fn start_dir(cwd: &str, is_dir: bool) -> (r: String)
    ensures
        r@ == if cwd@.len() > 0 && is_dir {
            cwd@
        } else {
            "/"@
        },
{
    if !text::is_empty(cwd) && is_dir {
        text::owned(cwd)
    } else {
        text::owned("/")
    }
}

/// A number, or no text where there is none.
pub open spec fn number_or_none(n: Option<i32>) -> Seq<char> {
    match n {
        Some(k) => text::signed(k as int),
        None => ""@,
    }
}

/// A number of seconds, or no text where there is none.
pub open spec fn seconds_or_none(n: Option<u64>) -> Seq<char> {
    match n {
        Some(k) => text::digits(k as nat),
        None => ""@,
    }
}

/// One variable, with a space in the place of each control character.
pub open spec fn variable(name: Seq<char>, value: Seq<char>) -> (Seq<char>, Seq<char>) {
    (name, job::printable_of(value))
}

/// The variables that the hook receives.
pub open spec fn variables_of(dir: Seq<char>, s: JobStatus, now: u64) -> Seq<
    (Seq<char>, Seq<char>),
> {
    seq![
        variable("QEX_JOB_ID"@, ids::hyphenated(s.id as nat)),
        variable("QEX_JOB_NAME"@, job::safe(s.name@)),
        variable("QEX_STATE"@, s.state.word()),
        variable("QEX_EXIT_CODE"@, number_or_none(s.exit_code)),
        variable("QEX_SIGNAL"@, number_or_none(s.signal)),
        variable("QEX_ELAPSED_SECS"@, seconds_or_none(s.ran_for(now))),
        variable("QEX_CWD"@, s.cwd@),
        variable("QEX_JOB_DIR"@, dir),
        variable("QEX_ATTEMPTS"@, text::digits(s.attempts as nat)),
        variable("QEX_MAX_RSS"@, text::digits(s.usage.max_rss as nat)),
        variable("QEX_TAGS"@, text::joined(text::views(s.tags@), " "@)),
    ]
}

fn add_variable(set: &mut Vec<(String, String)>, name: &str, value: &str)
    ensures
        text::pairs(final(set)@) == text::pairs(old(set)@).push(variable(name@, value@)),
{
    let v = job::printable(value);
    let ghost before = set@;
    set.push((text::owned(name), v));
    assert(text::pairs(set@) == text::pairs(before).push(variable(name@, value@)));
}

fn write_number(n: Option<i32>) -> (r: String)
    ensures
        r@ == number_or_none(n),
{
    match n {
        Some(k) => text::signed_decimal(k as i64),
        None => text::owned(""),
    }
}

/// Gives the variables that the hook receives.
///
/// The values go in the environment and never in a command line. The name is the
/// safe form of the name. A variable that has no value is an empty text. A value
/// never holds a control character: the system cannot hand over a variable with
/// a NUL in it.
pub fn variables(dir: &str, status: &JobStatus, now: u64) -> (r: Vec<(String, String)>)
    ensures
        text::pairs(r@) == variables_of(dir@, *status, now),
{
    let mut set: Vec<(String, String)> = Vec::new();
    let seconds = match status.elapsed(now) {
        Some(n) => text::decimal(n),
        None => text::owned(""),
    };
    add_variable(&mut set, "QEX_JOB_ID", ids::id_text(status.id).as_str());
    add_variable(&mut set, "QEX_JOB_NAME", job::safe_name(status.name.as_str()).as_str());
    add_variable(&mut set, "QEX_STATE", status.state.as_str());
    add_variable(&mut set, "QEX_EXIT_CODE", write_number(status.exit_code).as_str());
    add_variable(&mut set, "QEX_SIGNAL", write_number(status.signal).as_str());
    add_variable(&mut set, "QEX_ELAPSED_SECS", seconds.as_str());
    add_variable(&mut set, "QEX_CWD", status.cwd.as_str());
    add_variable(&mut set, "QEX_JOB_DIR", dir);
    add_variable(&mut set, "QEX_ATTEMPTS", text::decimal(status.attempts as u64).as_str());
    add_variable(&mut set, "QEX_MAX_RSS", text::decimal(status.usage.max_rss).as_str());
    add_variable(&mut set, "QEX_TAGS", text::join(&status.tags, " ").as_str());
    assert(text::pairs(set@) == variables_of(dir@, *status, now));
    set
}

// ---------------------------------------------------------------------------
// The run.
// ---------------------------------------------------------------------------

/// What a test of the process of the hook gave.
#[derive(Debug)]
pub enum Poll {
    Stopped,
    Operates,
    /// The test failed. The text says why.
    Fault(String),
}

/// What the caller does after a test of the hook.
#[derive(Debug, Clone, Copy, PartialEq, Eq, Structural)]
pub enum Watch {
    /// Wait a short time, and test again.
    Wait,
    /// The hook stopped by itself.
    Ended,
    /// The time is over. Stop the hook.
    TooSlow,
    /// The output is too large. Stop the hook.
    TooLarge,
    /// qex cannot tell if the hook stopped. Stop it at once.
    Lost,
}

/// What comes after a test of the hook.
pub open spec fn watched(poll: Poll, late: bool, size: u64) -> Watch {
    match poll {
        Poll::Stopped => Watch::Ended,
        Poll::Fault(_) => Watch::Lost,
        Poll::Operates => if late {
            Watch::TooSlow
        } else if size > OUTPUT_LIMIT {
            Watch::TooLarge
        } else {
            Watch::Wait
        },
    }
}

/// Decides after a test of the hook. `late` says that the time limit passed, and
/// `size` is the size of the log in bytes.
pub fn watch(poll: &Poll, late: bool, size: u64) -> (r: Watch)
    ensures
        r == watched(*poll, late, size),
{
    match poll {
        Poll::Stopped => Watch::Ended,
        Poll::Fault(_) => Watch::Lost,
        Poll::Operates => {
            if late {
                Watch::TooSlow
            } else if size > OUTPUT_LIMIT {
                Watch::TooLarge
            } else {
                Watch::Wait
            }
        },
    }
}

/// The size of the log after the cut; `None` when the log stays as it is.
///
/// The limit is on the file, and not on the speed of the hook, so this test
/// comes after every hook.
pub fn cut_log(size: u64) -> (r: Option<u64>)
    ensures
        r == if size <= OUTPUT_LIMIT {
            None
        } else {
            Some(OUTPUT_LIMIT)
        },
{
    if size <= OUTPUT_LIMIT {
        None
    } else {
        Some(OUTPUT_LIMIT)
    }
}

/// How the process of the hook ended.
#[derive(Debug)]
pub struct Exit {
    pub success: bool,
    /// The words of the system, such as `exit status: 3`.
    pub words: String,
}

/// How a run of the hook ended.
#[derive(Debug)]
pub struct Ending {
    pub watch: Watch,
    /// The text of the fault of a test.
    pub fault: String,
    /// True when the log was cut.
    pub cut: bool,
    /// The path of the log.
    pub log: String,
    /// The time limit in seconds.
    pub limit: u64,
    /// The time that the hook used, in seconds.
    pub used: u64,
    /// The end of the process, where qex could read it.
    pub exit: Option<Exit>,
}

/// The words for the end of a run.
pub open spec fn verdict_of(e: Ending, id: u128) -> Seq<char> {
    let limit = units::size_text(OUTPUT_LIMIT as nat);
    match e.watch {
        Watch::Lost => "gave an error at a test of its state: "@ + e.fault@,
        Watch::TooLarge => "wrote more than "@ + limit + " and qex stopped it. qex cut "@ + e.log@
            + ". Write less in the hook."@,
        Watch::TooSlow => {
            let start = "used more than its time limit of "@ + units::duration_text(e.limit as nat)
                + " and qex stopped it. Make the hook faster, or increase `[hooks] timeout`."@;
            if e.cut {
                start + " It also wrote more than "@ + limit + ", so qex cut its log."@
            } else {
                start
            }
        },
        _ => if e.cut {
            "wrote more than "@ + limit + " before it stopped. qex cut "@ + e.log@
                + ". Write less in the hook."@
        } else {
            match e.exit {
                Some(x) => if x.success {
                    "ran in "@ + units::duration_text(e.used as nat)
                } else {
                    "stopped with "@ + x.words@ + ". Read `qex logs "@ + ids::hyphenated(id as nat)
                        + " --hook` for its output."@
                },
                None => "stopped, and qex could not read its result"@,
            }
        },
    }
}

/// Gives the words for the end of a run.
pub fn run(e: &Ending, id: u128) -> (r: String)
    ensures
        r@ == verdict_of(*e, id),
{
    let limit = units::format_size(OUTPUT_LIMIT);
    match e.watch {
        Watch::Lost => {
            let mut m = text::owned("gave an error at a test of its state: ");
            m.append(e.fault.as_str());
            m
        },
        Watch::TooLarge => {
            let mut m = text::owned("wrote more than ");
            m.append(limit.as_str());
            m.append(" and qex stopped it. qex cut ");
            m.append(e.log.as_str());
            m.append(". Write less in the hook.");
            m
        },
        Watch::TooSlow => {
            let mut m = text::owned("used more than its time limit of ");
            m.append(units::format_duration(e.limit).as_str());
            m.append(
                " and qex stopped it. Make the hook faster, or increase `[hooks] timeout`.",
            );
            if e.cut {
                m.append(" It also wrote more than ");
                m.append(limit.as_str());
                m.append(", so qex cut its log.");
            }
            m
        },
        _ => {
            if e.cut {
                let mut m = text::owned("wrote more than ");
                m.append(limit.as_str());
                m.append(" before it stopped. qex cut ");
                m.append(e.log.as_str());
                m.append(". Write less in the hook.");
                return m;
            }
            match &e.exit {
                Some(x) => {
                    if x.success {
                        let mut m = text::owned("ran in ");
                        m.append(units::format_duration(e.used).as_str());
                        m
                    } else {
                        let mut m = text::owned("stopped with ");
                        m.append(x.words.as_str());
                        m.append(". Read `qex logs ");
                        m.append(ids::id_text(id).as_str());
                        m.append(" --hook` for its output.");
                        m
                    }
                },
                None => text::owned("stopped, and qex could not read its result"),
            }
        },
    }
}

/// The words for a hook that did not start. They name the program, because the
/// fault is one of the config file.
pub fn start_fault(why: &str, program: &str) -> (r: String)
    ensures
        r@ == "did not start: "@ + why@ + ". Test the program `"@ + program@
            + "` in `[hooks] on_stop` of the config file. The job keeps its result."@,
{
    let mut m = text::owned("did not start: ");
    m.append(why);
    m.append(". Test the program `");
    m.append(program);
    m.append("` in `[hooks] on_stop` of the config file. The job keeps its result.");
    m
}

/// The words of qex in the log of the hook. They start on a line of their own,
/// because the log can be cut in the middle of a line.
pub fn note(verdict: &str) -> (r: String)
    ensures
        r@ == "\nqex: the stop hook "@ + verdict@ + "\n"@,
{
    let mut m = text::owned("\nqex: the stop hook ");
    m.append(verdict);
    m.append("\n");
    m
}

/// No value that a hook receives holds a control character, whatever the name,
/// the tags and the directory of the job hold.
pub proof fn law_no_variable_holds_a_control_character(
    dir: Seq<char>,
    s: JobStatus,
    now: u64,
    i: int,
    k: int,
)
    requires
        0 <= i < variables_of(dir, s, now).len(),
        0 <= k < variables_of(dir, s, now)[i].1.len(),
    ensures
        !text::control(variables_of(dir, s, now)[i].1[k]),
{
    assert(exists|name: Seq<char>, value: Seq<char>|
        variables_of(dir, s, now)[i] == #[trigger] variable(name, value));
    let (name, value) = choose|name: Seq<char>, value: Seq<char>|
        variables_of(dir, s, now)[i] == #[trigger] variable(name, value);
    assert(job::printable_of(value)[k] == if text::control(value[k]) {
        ' '
    } else {
        value[k]
    });
}

/// qex waits for a hook exactly while it operates inside both of its limits.
pub proof fn law_a_hook_operates_inside_its_limits(poll: Poll, late: bool, size: u64)
    ensures
        watched(poll, late, size) is Wait <==> poll is Operates && !late && size <= OUTPUT_LIMIT,
        poll is Stopped ==> watched(poll, late, size) is Ended,
{
}

/// The hook runs exactly where there is one, the job stopped for good, and the
/// list of the states names its state.
pub proof fn law_when_the_hook_runs(hooks: &Hooks, state: JobState, r: bool)
    requires
        call_ensures(fire, (hooks, state), r),
    ensures
        r <==> hooks.on_stop@.len() > 0 && state.is_final() && exists|i: int|
            0 <= i < hooks.on_stop_states@.len() && (#[trigger] hooks.on_stop_states@[i])@
                == state.word(),
{
    let names = text::views(hooks.on_stop_states@);
    if names.contains(state.word()) {
        let i = names.index_of(state.word());
        assert(hooks.on_stop_states@[i]@ == state.word());
    }
    if exists|i: int|
        0 <= i < hooks.on_stop_states@.len() && (#[trigger] hooks.on_stop_states@[i])@
            == state.word() {
        let i = choose|i: int|
            0 <= i < hooks.on_stop_states@.len() && (#[trigger] hooks.on_stop_states@[i])@
                == state.word();
        assert(names[i] == state.word());
    }
}

/// Only the process that made the claim runs the hook, and a fault is told.
pub proof fn law_who_runs_the_hook(file: &ClaimFile, id: u128, dir: &str, r: (
    bool,
    Option<String>,
))
    requires
        call_ensures(claim, (file, id, dir), r),
    ensures
        r.0 <==> *file is Made,
        r.1 is Some <==> *file is Fault,
{
}

/// A hook starts in the directory of the job where there is one, and in the root
/// directory otherwise.
pub proof fn law_where_a_hook_starts(cwd: &str, is_dir: bool, r: String)
    requires
        call_ensures(start_dir, (cwd, is_dir), r),
    ensures
        is_dir && cwd@.len() > 0 ==> r@ == cwd@,
        !is_dir || cwd@.len() == 0 ==> r@ == seq!['/'],
{
    reveal_strlit("/");
    assert("/"@ == seq!['/']);
}

/// qex waits for a hook that operates inside its limits. It stops one that takes
/// too long or that writes too much, and it cuts what was written at the limit.
pub proof fn law_how_a_hook_is_watched(
    poll: &Poll,
    late: bool,
    size: u64,
    r: Watch,
    cut: Option<u64>,
)
    requires
        call_ensures(watch, (poll, late, size), r),
        call_ensures(cut_log, (size,), cut),
    ensures
        *poll is Stopped ==> r is Ended,
        *poll is Fault ==> r is Lost,
        *poll is Operates && late ==> r is TooSlow,
        *poll is Operates && !late && size > 1048576 ==> r is TooLarge,
        *poll is Operates && !late && size <= 1048576 ==> r is Wait,
        cut is Some <==> size > 1048576,
        cut is Some ==> cut->0 == 1048576,
{
}

/// The hook gets the id, the name, the state and the result of the job, each
/// under its own name.
pub proof fn law_what_a_hook_gets(
    dir: &str,
    status: &JobStatus,
    now: u64,
    r: Vec<(String, String)>,
)
    requires
        call_ensures(variables, (dir, status, now), r),
    ensures
        r@.len() == 11,
        r@[0].0@ == "QEX_JOB_ID"@ && r@[0].1@ == job::printable_of(
            ids::hyphenated(status.id as nat),
        ),
        r@[1].0@ == "QEX_JOB_NAME"@ && r@[1].1@ == job::printable_of(job::safe(status.name@)),
        r@[2].0@ == "QEX_STATE"@ && r@[2].1@ == job::printable_of(status.state.word()),
        r@[3].0@ == "QEX_EXIT_CODE"@ && (status.exit_code is None ==> r@[3].1@.len() == 0) && (
        status.exit_code is Some ==> r@[3].1@ == job::printable_of(
            text::signed(status.exit_code->0 as int),
        )),
        r@[4].0@ == "QEX_SIGNAL"@ && (status.signal is None ==> r@[4].1@.len() == 0) && (
        status.signal is Some ==> r@[4].1@ == job::printable_of(
            text::signed(status.signal->0 as int),
        )),
        r@[5].0@ == "QEX_ELAPSED_SECS"@ && (status.started_at is None ==> r@[5].1@.len() == 0),
        r@[6].0@ == "QEX_CWD"@ && r@[6].1@ == job::printable_of(status.cwd@),
        r@[7].0@ == "QEX_JOB_DIR"@ && r@[7].1@ == job::printable_of(dir@),
        r@[8].0@ == "QEX_ATTEMPTS"@ && r@[8].1@ == job::printable_of(
            text::digits(status.attempts as nat),
        ),
{
    reveal_strlit("");
    let all = text::pairs(r@);
    assert(all.len() == 11);
    assert forall|i: int| 0 <= i < 11 implies all[i] == ((#[trigger] r@[i]).0@, r@[i].1@) by {}
    assert(r@[0].0@ == all[0].0);
    assert(r@[1].0@ == all[1].0);
    assert(r@[2].0@ == all[2].0);
    assert(r@[3].0@ == all[3].0);
    assert(r@[4].0@ == all[4].0);
    assert(r@[5].0@ == all[5].0);
    assert(r@[6].0@ == all[6].0);
    assert(r@[7].0@ == all[7].0);
    assert(r@[8].0@ == all[8].0);
    assert(job::printable_of(""@).len() == 0);
}

/// The words about a hook say what happened to it: how long it ran, how it
/// failed, or which limit it went over.
pub proof fn law_the_words_about_a_hook(e: &Ending, id: u128, r: String)
    requires
        call_ensures(run, (e, id), r),
    ensures
        e.watch is Ended && !e.cut && e.exit is Some && e.exit->0.success ==> r@ == "ran in "@
            + units::duration_text(e.used as nat),
        e.watch is Ended && !e.cut && e.exit is Some && !e.exit->0.success ==> text::begins(
            r@,
            "stopped with "@ + e.exit->0.words@,
        ),
        e.watch is TooSlow ==> text::begins(
            r@,
            "used more than its time limit of "@ + units::duration_text(e.limit as nat),
        ),
        e.watch is TooLarge ==> text::begins(
            r@,
            "wrote more than "@ + units::size_text(OUTPUT_LIMIT as nat),
        ),
        e.watch is Lost ==> text::begins(r@, "gave an error at a test of its state: "@ + e.fault@),
{
    if e.exit is Some {
        let want = "stopped with "@ + e.exit->0.words@;
        if e.watch is Ended && !e.cut && !e.exit->0.success {
            assert(r@.subrange(0, want.len() as int) == want);
        }
    }
    let slow = "used more than its time limit of "@ + units::duration_text(e.limit as nat);
    let large = "wrote more than "@ + units::size_text(OUTPUT_LIMIT as nat);
    let lost = "gave an error at a test of its state: "@ + e.fault@;
    if e.watch is TooSlow {
        assert(r@.subrange(0, slow.len() as int) == slow);
    } else if e.watch is TooLarge {
        assert(r@.subrange(0, large.len() as int) == large);
    } else if e.watch is Lost {
        assert(r@.subrange(0, lost.len() as int) == lost);
    }
}

} // verus!

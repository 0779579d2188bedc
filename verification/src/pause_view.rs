//! What one reader may know about the session that made a pause request.

use crate::context;
use crate::job::Ancestor;
use crate::pause::PauseRecord;
use crate::text;
use vstd::prelude::*;
use vstd::string::*;

verus! {

/// What qex knows about the session that made a request.
#[derive(Debug, Clone, Copy, PartialEq, Eq, Structural)]
pub enum IssuerState {
    /// A recorded process of the session still exists. This says that a
    /// process exists, and not that anybody remembers the pause.
    Running,
    /// No recorded process of the session exists.
    Gone,
    /// qex could not learn who asked, or cannot test the processes. Every
    /// reader treats this state as `Running`, and never as less.
    Unknown,
}

/// If the reader of a request is in the session that made it.
///
/// This value is a hint for a reader that lost its receipt. Sibling agents
/// share one session, so the id is the proof and this value is not.
#[derive(Debug, Clone, Copy, PartialEq, Eq, Structural)]
pub enum Relation {
    Yes,
    No,
    Unknown,
}

/// One process of the chain of an issuer, in the forensic output.
///
/// The field is `host_pid`, and never `pid`: the number has a meaning on the
/// machine of the coordinator only.
#[derive(Debug, Clone, PartialEq, Eq)]
pub struct ChainEntry {
    pub host_pid: i32,
    pub start: Option<u64>,
    pub name: String,
}

/// One standing request, as the coordinator shows it to ONE reader.
#[derive(Debug, Clone, PartialEq, Eq)]
pub struct PauseView {
    pub pause_id: String,
    pub made_at: u64,
    pub until: Option<u64>,
    pub reason: Option<String>,
    pub fault: bool,
    pub issuer_session_state: IssuerState,
    /// `None` exactly when the state is `Unknown`.
    pub issuer_program: Option<String>,
    pub issuer_is_this_session: Relation,
    /// For the forensic output only.
    pub issuer_chain: Option<Vec<ChainEntry>>,
    /// For the forensic output only. See `PauseRecord::by_pid`.
    pub caller_reported_pid: Option<i32>,
}

/// The programs that never count as a process of a session: the first process
/// of a machine, and a container runtime or its shim. Each one lives as long as
/// the machine or the container, so it says nothing about the session that
/// made a request.
pub open spec fn never_a_session(name: Seq<char>) -> bool {
    ||| name == "init"@
    ||| name == "systemd"@
    ||| name == "launchd"@
    ||| name == "tini"@
    ||| name == "dumb-init"@
    ||| name == "docker-init"@
    ||| name == "conmon"@
    ||| name == "containerd-shim"@
}

fn is_never_a_session(name: &str) -> (r: bool)
    ensures
        r == never_a_session(name@),
{
    text::same(name, "init") || text::same(name, "systemd") || text::same(name, "launchd")
        || text::same(name, "tini") || text::same(name, "dumb-init") || text::same(
        name,
        "docker-init",
    ) || text::same(name, "conmon") || text::same(name, "containerd-shim")
}

/// The shells. A shell is a process of a session, but its name tells a reader
/// nothing, so the output prefers the name of a different process.
pub open spec fn shell(name: Seq<char>) -> bool {
    ||| name == "sh"@
    ||| name == "bash"@
    ||| name == "zsh"@
    ||| name == "fish"@
    ||| name == "dash"@
    ||| name == "ksh"@
    ||| name == "csh"@
    ||| name == "tcsh"@
    ||| name == "nu"@
    ||| name == "pwsh"@
}

fn is_shell(name: &str) -> (r: bool)
    ensures
        r == shell(name@),
{
    text::same(name, "sh") || text::same(name, "bash") || text::same(name, "zsh") || text::same(
        name,
        "fish",
    ) || text::same(name, "dash") || text::same(name, "ksh") || text::same(name, "csh")
        || text::same(name, "tcsh") || text::same(name, "nu") || text::same(name, "pwsh")
}

/// True when the process counts for the state of a session.
pub open spec fn counts(p: Ancestor) -> bool {
    p.pid != 1 && !never_a_session(p.name@)
}

/// The processes of the list that count, in their order.
pub open spec fn counted(list: Seq<Ancestor>) -> Seq<Ancestor>
    decreases list.len(),
{
    if list.len() == 0 {
        Seq::empty()
    } else if counts(list.last()) {
        counted(list.drop_last()).push(list.last())
    } else {
        counted(list.drop_last())
    }
}

/// The processes of a chain that count for the state of its session: those at
/// or below the point where the session ends.
pub open spec fn session_of(chain: Seq<Ancestor>) -> Seq<Ancestor> {
    match context::boundary(chain) {
        Some(i) => counted(chain.take(i as int + 1)),
        None => Seq::empty(),
    }
}

/// The values that a list of references names.
pub open spec fn named(list: Seq<&Ancestor>) -> Seq<Ancestor> {
    list.map_values(|p: &Ancestor| *p)
}

/// Gives the processes of a chain that count for the state of a session:
/// those at or below the point where the session ends, without the first
/// process of the machine and without a container runtime.
///
/// The boundary process counts here, although the test of a shared session
/// leaves it out. An agent that a service started is itself the boundary of its
/// chain, and without it every such pause would read `gone`.
pub fn session_processes(chain: &[Ancestor]) -> (r: Vec<&Ancestor>)
    ensures
        named(r@) == session_of(chain@),
{
    let mut out: Vec<&Ancestor> = Vec::new();
    let last: usize = match context::boundary_index(chain) {
        Some(i) => i,
        None => {
            assert(named(out@) == Seq::<Ancestor>::empty());
            return out;
        },
    };
    let mut i: usize = 0;
    assert(named(out@) == counted(chain@.take(0)));
    while i <= last
        invariant
            i <= last + 1,
            last < chain@.len(),
            named(out@) == counted(chain@.take(i as int)),
        decreases last + 1 - i,
    {
        let p = &chain[i];
        let ghost before = out@;
        assert(chain@.take(i + 1).drop_last() == chain@.take(i as int));
        if p.pid != 1 && !is_never_a_session(p.name.as_str()) {
            out.push(p);
            assert(named(out@) == named(before).push(*p));
        }
        i += 1;
    }
    out
}

/// The name that the output gives for a session: the lowest process that is
/// not a shell, or the highest process when each one is a shell.
pub open spec fn program(list: Seq<Ancestor>) -> Option<Seq<char>>
    decreases list.len(),
{
    if list.len() == 0 {
        None
    } else {
        let before = list.drop_last();
        if exists|i: int| 0 <= i < before.len() && !shell((#[trigger] before[i]).name@) {
            program(before)
        } else {
            Some(list.last().name@)
        }
    }
}

proof fn lemma_program(list: Seq<Ancestor>, i: int)
    requires
        0 <= i < list.len(),
        forall|k: int| 0 <= k < i ==> shell((#[trigger] list[k]).name@),
        !shell(list[i].name@) || i == list.len() - 1,
    ensures
        program(list) == Some(list[i].name@),
    decreases list.len(),
{
    let before = list.drop_last();
    if i < list.len() - 1 {
        assert(!shell(before[i].name@));
        assert forall|k: int| 0 <= k < i implies shell((#[trigger] before[k]).name@) by {
            assert(before[k] == list[k]);
        }
        lemma_program(before, i);
    } else {
        assert forall|k: int| 0 <= k < before.len() implies shell((#[trigger] before[k]).name@) by {
            assert(before[k] == list[k]);
        }
    }
}

/// Chooses the name that the output gives for a session.
pub fn program_of(processes: &Vec<&Ancestor>) -> (r: Option<String>)
    ensures
        text::opt_view(r) == program(named(processes@)),
{
    if processes.len() == 0 {
        return None;
    }
    let mut i: usize = 0;
    while processes.len() - i > 1 && is_shell(processes[i].name.as_str())
        invariant
            i < processes@.len(),
            forall|k: int| 0 <= k < i ==> shell((#[trigger] processes@[k]).name@),
        decreases processes@.len() - i,
    {
        i += 1;
    }
    proof {
        let list = named(processes@);
        assert forall|k: int| 0 <= k < i implies shell((#[trigger] list[k]).name@) by {
            assert(shell(processes@[k].name@));
        }
        lemma_program(list, i as int);
    }
    Some(processes[i].name.clone())
}

/// Tests if the process that a record names still exists: the number AND the
/// start time. `token` is the start time of the process that has the number
/// now, where there is one.
pub fn still_exists(process: &Ancestor, token: Option<u64>) -> (r: bool)
    ensures
        r == (process.start is Some && token == process.start),
{
    match (process.start, token) {
        (Some(a), Some(b)) => a == b,
        _ => false,
    }
}

/// The processes whose flag is true, in their order.
pub open spec fn living(list: Seq<Ancestor>, alive: Seq<bool>) -> Seq<Ancestor>
    decreases list.len(),
{
    if list.len() == 0 {
        Seq::empty()
    } else if alive[list.len() - 1] {
        living(list.drop_last(), alive).push(list.last())
    } else {
        living(list.drop_last(), alive)
    }
}

/// The state of the session that made a request, and the name to show, where
/// `alive` says which processes of the session exist.
pub open spec fn judged(record: PauseRecord, same_namespace: bool, alive: Seq<bool>) -> (
    IssuerState,
    Option<Seq<char>>,
) {
    match record.issuer_chain {
        None => (IssuerState::Unknown, None),
        Some(chain) => {
            let session = session_of(chain@);
            if record.fault || !same_namespace || session.len() == 0 {
                (IssuerState::Unknown, None)
            } else if living(session, alive).len() > 0 {
                (IssuerState::Running, program(living(session, alive)))
            } else if exists|i: int|
                0 <= i < session.len() && (#[trigger] session[i]).start is None {
                (IssuerState::Unknown, None)
            } else {
                (IssuerState::Gone, program(session))
            }
        },
    }
}

/// The processes about which the state of a request depends on the machine.
pub open spec fn asked(record: PauseRecord) -> Seq<Ancestor> {
    match record.issuer_chain {
        None => Seq::empty(),
        Some(chain) => session_of(chain@),
    }
}

/// Judges the session that made a request, where `alive` says which processes
/// of the session exist.
///
/// A process with no start time can never be shown to exist, so qex cannot say
/// that a session with such a process is gone.
pub fn judge(record: &PauseRecord, same_namespace: bool, alive: &Vec<bool>) -> (r: (
    IssuerState,
    Option<String>,
))
    requires
        alive@.len() == asked(*record).len(),
    ensures
        (r.0, text::opt_view(r.1)) == judged(*record, same_namespace, alive@),
{
    if record.fault || !same_namespace {
        return (IssuerState::Unknown, None);
    }
    let chain = match &record.issuer_chain {
        Some(chain) => chain,
        None => {
            return (IssuerState::Unknown, None);
        },
    };
    let session = session_processes(chain.as_slice());
    let ghost list = session_of(chain@);
    if session.len() == 0 {
        return (IssuerState::Unknown, None);
    }
    let mut up: Vec<&Ancestor> = Vec::new();
    let mut no_start = false;
    let mut i: usize = 0;
    assert(named(up@) == living(list.take(0), alive@));
    while i < session.len()
        invariant
            named(session@) == list,
            alive@.len() == list.len(),
            i <= session@.len(),
            named(up@) == living(list.take(i as int), alive@),
            no_start == (exists|k: int| 0 <= k < i && (#[trigger] list[k]).start is None),
        decreases session@.len() - i,
    {
        let p = session[i];
        assert(list[i as int] == *p);
        let ghost before = up@;
        assert(list.take(i + 1).drop_last() == list.take(i as int));
        if alive[i] {
            up.push(p);
            assert(named(up@) == named(before).push(*p));
        }
        if p.start.is_none() {
            no_start = true;
        }
        i += 1;
    }
    assert(list.take(list.len() as int) == list);
    if up.len() > 0 {
        return (IssuerState::Running, program_of(&up));
    }
    if no_start {
        return (IssuerState::Unknown, None);
    }
    (IssuerState::Gone, program_of(&session))
}

/// Asks about each process of the session that made a request.
fn ask<F: Fn(&Ancestor) -> bool>(record: &PauseRecord, lives: &F) -> (r: Vec<bool>)
    requires
        forall|p: &Ancestor| call_requires(*lives, (p,)),
    ensures
        r@.len() == asked(*record).len(),
        forall|i: int|
            0 <= i < r@.len() ==> call_ensures(*lives, (&asked(*record)[i],), #[trigger] r@[i]),
{
    let mut out: Vec<bool> = Vec::new();
    if let Some(chain) = &record.issuer_chain {
        let session = session_processes(chain.as_slice());
        let ghost list = asked(*record);
        let mut i: usize = 0;
        while i < session.len()
            invariant
                forall|p: &Ancestor| call_requires(*lives, (p,)),
                named(session@) == list,
                i <= session@.len(),
                out@.len() == i,
                forall|k: int|
                    0 <= k < i ==> call_ensures(*lives, (&list[k],), #[trigger] out@[k]),
            decreases session@.len() - i,
        {
            assert(list[i as int] == *session@[i as int]);
            let b = lives(session[i]);
            out.push(b);
            i += 1;
        }
    }
    out
}

/// Gives the state of the session that made a request, and the name to show.
///
/// `lives` tests one recorded process. `same_namespace` is false when the
/// record was made in a pid namespace that this process is not in.
pub fn issuer_state<F: Fn(&Ancestor) -> bool>(
    record: &PauseRecord,
    same_namespace: bool,
    lives: &F,
) -> (r: (IssuerState, Option<String>))
    requires
        forall|p: &Ancestor| call_requires(*lives, (p,)),
    ensures
        exists|alive: Seq<bool>|
            alive.len() == asked(*record).len() && (forall|i: int|
                0 <= i < alive.len() ==> call_ensures(
                    *lives,
                    (&asked(*record)[i],),
                    #[trigger] alive[i],
                )) && (r.0, text::opt_view(r.1)) == #[trigger] judged(
                *record,
                same_namespace,
                alive,
            ),
{
    let alive = ask(record, lives);
    judge(record, same_namespace, &alive)
}

/// True when the two lists name one process.
pub open spec fn meet(a: Seq<Ancestor>, b: Seq<Ancestor>) -> bool {
    exists|i: int, j: int|
        0 <= i < a.len() && 0 <= j < b.len() && #[trigger] context::same_process(a[i], b[j])
}

/// If the reader is in the session of the issuer.
///
/// `Yes` needs a shared process BELOW the boundary. Two agents in two panes of
/// one multiplexer share the multiplexer only; that is not one session, and
/// qex cannot say that it is two, because an agent that IS its boundary shares
/// nothing else with its own commands.
pub open spec fn related(issuer: Option<Seq<Ancestor>>, reader: Option<Seq<Ancestor>>) -> Relation {
    match (issuer, reader) {
        (Some(a), Some(b)) => {
            let ours = session_of(a);
            let theirs = session_of(b);
            if context::one_session(a, b) {
                Relation::Yes
            } else if ours.len() == 0 || theirs.len() == 0 || meet(ours, theirs) {
                Relation::Unknown
            } else {
                Relation::No
            }
        },
        _ => Relation::Unknown,
    }
}

/// The processes of a chain that may be missing.
pub open spec fn chain_of(chain: Option<&[Ancestor]>) -> Option<Seq<Ancestor>> {
    match chain {
        Some(c) => Some(c@),
        None => None,
    }
}

fn do_meet(a: &Vec<&Ancestor>, b: &Vec<&Ancestor>) -> (r: bool)
    ensures
        r == meet(named(a@), named(b@)),
{
    let mut i: usize = 0;
    while i < a.len()
        invariant
            i <= a@.len(),
            forall|x: int, y: int|
                0 <= x < i && 0 <= y < b@.len() ==> !(#[trigger] context::same_process(
                    named(a@)[x],
                    named(b@)[y],
                )),
        decreases a@.len() - i,
    {
        let mut j: usize = 0;
        while j < b.len()
            invariant
                i < a@.len(),
                j <= b@.len(),
                forall|y: int|
                    0 <= y < j ==> !(#[trigger] context::same_process(
                        named(a@)[i as int],
                        named(b@)[y],
                    )),
            decreases b@.len() - j,
        {
            if context::is_same_process(a[i], b[j]) {
                assert(context::same_process(named(a@)[i as int], named(b@)[j as int]));
                return true;
            }
            j += 1;
        }
        i += 1;
    }
    false
}

/// Says if the reader is in the session that made a request.
pub fn relation(issuer: Option<&[Ancestor]>, reader: Option<&[Ancestor]>) -> (r: Relation)
    ensures
        r == related(chain_of(issuer), chain_of(reader)),
{
    let (a, b) = match (issuer, reader) {
        (Some(a), Some(b)) => (a, b),
        _ => {
            return Relation::Unknown;
        },
    };
    if context::shared(a, b) {
        return Relation::Yes;
    }
    let ours = session_processes(a);
    let theirs = session_processes(b);
    if ours.len() == 0 || theirs.len() == 0 {
        return Relation::Unknown;
    }
    if do_meet(&ours, &theirs) {
        Relation::Unknown
    } else {
        Relation::No
    }
}

/// The entries of the forensic output for a chain.
pub open spec fn entries(a: Seq<Ancestor>, b: Seq<ChainEntry>) -> bool {
    &&& a.len() == b.len()
    &&& forall|i: int|
        0 <= i < a.len() ==> (#[trigger] b[i]).host_pid == a[i].pid && b[i].start == a[i].start
            && b[i].name@ == a[i].name@
}

fn entries_of(chain: &Vec<Ancestor>) -> (r: Vec<ChainEntry>)
    ensures
        entries(chain@, r@),
{
    let mut out: Vec<ChainEntry> = Vec::new();
    let mut i: usize = 0;
    while i < chain.len()
        invariant
            i <= chain@.len(),
            entries(chain@.take(i as int), out@),
        decreases chain@.len() - i,
    {
        let p = &chain[i];
        out.push(ChainEntry { host_pid: p.pid, start: p.start, name: p.name.clone() });
        i += 1;
    }
    assert(chain@.take(chain@.len() as int) == chain@);
    out
}

/// What a reader is shown of a request, where `alive` says which processes of
/// the session exist.
pub open spec fn shows(
    v: PauseView,
    record: PauseRecord,
    reader: Option<Seq<Ancestor>>,
    same_namespace: bool,
    alive: Seq<bool>,
) -> bool {
    let (state, name) = judged(record, same_namespace, alive);
    &&& v.pause_id@ == record.id@
    &&& v.made_at == record.paused_at
    &&& v.until == record.until
    &&& text::opt_view(v.reason) == text::opt_view(record.reason)
    &&& v.fault == record.fault
    &&& v.issuer_session_state == state
    &&& text::opt_view(v.issuer_program) == name
    &&& v.issuer_is_this_session == (if state is Unknown {
        Relation::Unknown
    } else {
        related(
            match record.issuer_chain {
                Some(c) => Some(c@),
                None => None,
            },
            reader,
        )
    })
    &&& match (record.issuer_chain, v.issuer_chain) {
        (Some(a), Some(b)) => entries(a@, b@),
        (None, None) => true,
        _ => false,
    }
    &&& v.caller_reported_pid == (if record.by_pid > 0 {
        Some(record.by_pid)
    } else {
        None
    })
}

/// Makes the view of one request for one reader, where `alive` says which
/// processes of the session exist.
pub fn view_of(
    record: &PauseRecord,
    reader: Option<&[Ancestor]>,
    same_namespace: bool,
    alive: &Vec<bool>,
) -> (r: PauseView)
    requires
        alive@.len() == asked(*record).len(),
    ensures
        shows(r, *record, chain_of(reader), same_namespace, alive@),
{
    let (state, name) = judge(record, same_namespace, alive);
    // `Unknown` on either side gives `Unknown`.
    let is_this = match state {
        IssuerState::Unknown => Relation::Unknown,
        _ => match &record.issuer_chain {
            Some(chain) => relation(Some(chain.as_slice()), reader),
            None => relation(None, reader),
        },
    };
    PauseView {
        pause_id: record.id.clone(),
        made_at: record.paused_at,
        until: record.until,
        reason: crate::job::copy_opt(&record.reason),
        fault: record.fault,
        issuer_session_state: state,
        issuer_program: name,
        issuer_is_this_session: is_this,
        issuer_chain: match &record.issuer_chain {
            Some(chain) => Some(entries_of(chain)),
            None => None,
        },
        caller_reported_pid: if record.by_pid > 0 {
            Some(record.by_pid)
        } else {
            None
        },
    }
}

/// The flags are answers of `lives` about the processes of the session that
/// made the request.
pub open spec fn answered<F: Fn(&Ancestor) -> bool>(
    record: PauseRecord,
    lives: F,
    alive: Seq<bool>,
) -> bool {
    &&& alive.len() == asked(record).len()
    &&& forall|i: int|
        0 <= i < alive.len() ==> call_ensures(lives, (&asked(record)[i],), #[trigger] alive[i])
}

/// The view shows the request as some answers of `lives` let it.
pub open spec fn viewed<F: Fn(&Ancestor) -> bool>(
    v: PauseView,
    record: PauseRecord,
    reader: Option<Seq<Ancestor>>,
    same_namespace: bool,
    lives: F,
) -> bool {
    exists|alive: Seq<bool>| #[trigger]
        answered(record, lives, alive) && shows(v, record, reader, same_namespace, alive)
}

/// Makes the view of one request for one reader.
///
/// `reader` is the chain above the command that reads, as the coordinator
/// walked it, or `None` when qex could not learn it.
pub fn view<F: Fn(&Ancestor) -> bool>(
    record: &PauseRecord,
    reader: Option<&[Ancestor]>,
    same_namespace: bool,
    lives: &F,
) -> (r: PauseView)
    requires
        forall|p: &Ancestor| call_requires(*lives, (p,)),
    ensures
        viewed(r, *record, chain_of(reader), same_namespace, *lives),
{
    let alive = ask(record, lives);
    assert(answered(*record, *lives, alive@));
    view_of(record, reader, same_namespace, &alive)
}

/// Makes the views of a list of requests, for a reader in the pid namespace
/// `here`.
pub fn views<F: Fn(&Ancestor) -> bool>(
    records: &Vec<PauseRecord>,
    reader: Option<&[Ancestor]>,
    here: &Option<String>,
    lives: &F,
) -> (r: Vec<PauseView>)
    requires
        forall|p: &Ancestor| call_requires(*lives, (p,)),
    ensures
        r@.len() == records@.len(),
        forall|i: int|
            0 <= i < records@.len() ==> viewed(
                #[trigger] r@[i],
                records@[i],
                chain_of(reader),
                text::opt_view(records@[i].issuer_ns) == text::opt_view(*here),
                *lives,
            ),
{
    let mut out: Vec<PauseView> = Vec::new();
    let mut i: usize = 0;
    while i < records.len()
        invariant
            forall|p: &Ancestor| call_requires(*lives, (p,)),
            i <= records@.len(),
            out@.len() == i,
            forall|k: int|
                0 <= k < i ==> viewed(
                    #[trigger] out@[k],
                    records@[k],
                    chain_of(reader),
                    text::opt_view(records@[k].issuer_ns) == text::opt_view(*here),
                    *lives,
                ),
        decreases records@.len() - i,
    {
        let same = match (&records[i].issuer_ns, here) {
            (Some(a), Some(b)) => text::same(a.as_str(), b.as_str()),
            (None, None) => true,
            _ => false,
        };
        let v = view(&records[i], reader, same, lives);
        out.push(v);
        i += 1;
    }
    out
}

/// Gives ONE record that stands for a set, for a CLI of an earlier version,
/// which reads one record and prints its pid. The record holds NO process id,
/// so that CLI prints "an unknown process". It starts at the oldest request,
/// and it has an end only when every request has one.
pub fn for_an_earlier_cli(records: &[PauseRecord]) -> (r: Option<PauseRecord>)
    ensures
        r is None <==> records@.len() == 0,
        r matches Some(one) ==> {
            let k = oldest(records@, records@.len());
            &&& one.id@ == records@[k].id@
            &&& one.paused_at == records@[k].paused_at
            &&& one.by_pid == 0
            &&& text::opt_view(one.reason) == text::opt_view(records@[k].reason)
            &&& one.until == common_end(records@, records@.len())
            &&& one.fault == records@[k].fault
            &&& one.issuer_chain is None
            &&& one.issuer_ns is None
        },
{
    if records.len() == 0 {
        return None;
    }
    let mut k: usize = 0;
    let mut end: Option<u64> = records[0].until;
    let mut i: usize = 1;
    proof {
        reveal_with_fuel(oldest, 2);
        reveal_with_fuel(common_end, 2);
    }
    while i < records.len()
        invariant
            1 <= i <= records@.len(),
            k < i,
            k == oldest(records@, i as nat),
            end == common_end(records@, i as nat),
        decreases records@.len() - i,
    {
        if records[i].paused_at < records[k].paused_at {
            k = i;
        }
        end = match (end, records[i].until) {
            (Some(a), Some(b)) => Some(
                if b > a {
                    b
                } else {
                    a
                },
            ),
            _ => None,
        };
        i += 1;
    }
    let first = &records[k];
    Some(
        PauseRecord {
            id: first.id.clone(),
            paused_at: first.paused_at,
            by_pid: 0,
            reason: crate::job::copy_opt(&first.reason),
            until: end,
            fault: first.fault,
            issuer_chain: None,
            issuer_ns: None,
        },
    )
}

/// The position of the oldest of the first `n` requests, and of the first of
/// them where several are the oldest.
pub open spec fn oldest(list: Seq<PauseRecord>, n: nat) -> int
    decreases n,
{
    if n <= 1 {
        0
    } else {
        let k = oldest(list, (n - 1) as nat);
        if list[n - 1].paused_at < list[k].paused_at {
            n - 1
        } else {
            k
        }
    }
}

/// The latest end of the first `n` requests, or none where one of them has no
/// end.
pub open spec fn common_end(list: Seq<PauseRecord>, n: nat) -> Option<u64>
    decreases n,
{
    if n == 0 {
        None
    } else if n == 1 {
        list[0].until
    } else {
        match (common_end(list, (n - 1) as nat), list[n - 1].until) {
            (Some(a), Some(b)) => Some(
                if b > a {
                    b
                } else {
                    a
                },
            ),
            _ => None,
        }
    }
}

/// Gives the view of a record that came from a coordinator of an earlier
/// version. That coordinator read no issuer, so the state is `Unknown`.
pub fn unknown_view(record: &PauseRecord) -> (r: PauseView)
    ensures
        shows(
            PauseView {
                caller_reported_pid: if record.by_pid > 0 {
                    Some(record.by_pid)
                } else {
                    None
                },
                ..r
            },
            *record,
            None,
            false,
            Seq::new(asked(*record).len(), |i: int| false),
        ),
        r.caller_reported_pid is None,
        r.issuer_session_state is Unknown,
{
    let mut alive: Vec<bool> = Vec::new();
    if let Some(chain) = &record.issuer_chain {
        let session = session_processes(chain.as_slice());
        let mut i: usize = 0;
        while i < session.len()
            invariant
                i <= session@.len(),
                alive@ == Seq::new(i as nat, |k: int| false),
            decreases session@.len() - i,
        {
            alive.push(false);
            i += 1;
            assert(alive@ == Seq::new(i as nat, |k: int| false));
        }
        assert(session@.len() == named(session@).len());
    }
    assert(alive@ == Seq::new(asked(*record).len(), |i: int| false));
    let mut v = view_of(record, None, false, &alive);
    v.caller_reported_pid = None;
    v
}

/// The name of a session is unknown exactly when its state is, for every
/// answer of the machine; and so is its relation to the reader.
pub proof fn law_no_name_exactly_when_unknown(
    v: PauseView,
    record: PauseRecord,
    reader: Option<Seq<Ancestor>>,
    same_namespace: bool,
    alive: Seq<bool>,
)
    requires
        shows(v, record, reader, same_namespace, alive),
    ensures
        v.issuer_program is None <==> v.issuer_session_state is Unknown,
        v.issuer_session_state is Unknown ==> v.issuer_is_this_session is Unknown,
{
    if let Some(chain) = record.issuer_chain {
        let session = session_of(chain@);
        if session.len() > 0 {
            lemma_program_is_some(session);
        }
        if living(session, alive).len() > 0 {
            lemma_program_is_some(living(session, alive));
        }
    }
}

proof fn lemma_program_is_some(list: Seq<Ancestor>)
    requires
        list.len() > 0,
    ensures
        program(list) is Some,
    decreases list.len(),
{
    let before = list.drop_last();
    if exists|i: int| 0 <= i < before.len() && !shell((#[trigger] before[i]).name@) {
        lemma_program_is_some(before);
    }
}

/// A session of which one process has no start time is never called gone, and
/// neither is a session of another pid namespace or one that nobody read.
pub proof fn law_never_gone_without_proof(
    record: PauseRecord,
    same_namespace: bool,
    alive: Seq<bool>,
)
    requires
        record.fault || !same_namespace || record.issuer_chain is None || exists|i: int|
            0 <= i < asked(record).len() && (#[trigger] asked(record)[i]).start is None,
    ensures
        !(judged(record, same_namespace, alive).0 is Gone),
{
}

/// One more process of a chain counts for its session unless it is the first
/// process of the machine, or the program that starts a machine or a container.
pub proof fn law_which_processes_count(list: Seq<Ancestor>, p: Ancestor)
    ensures
        counted(list.push(p)) == if p.pid == 1 || p.name@ == "init"@ || p.name@ == "systemd"@
            || p.name@ == "launchd"@ || p.name@ == "tini"@ || p.name@ == "dumb-init"@ || p.name@
            == "docker-init"@ || p.name@ == "conmon"@ || p.name@ == "containerd-shim"@ {
            counted(list)
        } else {
            counted(list).push(p)
        },
        counted(Seq::empty()).len() == 0,
{
    assert(list.push(p).drop_last() == list);
}

/// The session of a chain is made of the processes up to the point where the
/// session ends, and that process counts too.
pub proof fn law_the_processes_of_a_session(chain: Seq<Ancestor>, n: nat)
    requires
        context::boundary(chain) == Some(n),
        n < chain.len(),
    ensures
        session_of(chain) == counted(chain.take(n as int + 1)),
        n == 0 && counts(chain[0]) ==> session_of(chain) == seq![chain[0]],
        session_of(Seq::empty()).len() == 0,
{
    if n == 0 {
        let none = Seq::<Ancestor>::empty();
        assert(chain.take(1) == none.push(chain[0]));
        assert(none.push(chain[0]).drop_last() == none);
        assert(none.push(chain[0]) == seq![chain[0]]);
        assert(counted(none) == none);
    }
}

/// The name of a session is that of its lowest process that is no shell. Where
/// each one is a shell it is that of the highest one.
pub proof fn law_the_name_of_a_session(list: Seq<Ancestor>, i: int)
    requires
        0 <= i < list.len(),
        forall|k: int| 0 <= k < i ==> shell((#[trigger] list[k]).name@),
        !shell(list[i].name@) || i == list.len() - 1,
    ensures
        program(list) == Some(list[i].name@),
        program(Seq::empty()) is None,
{
    lemma_program(list, i);
}

proof fn lemma_living(list: Seq<Ancestor>, alive: Seq<bool>)
    ensures
        living(list, alive).len() > 0 <==> exists|i: int| 0 <= i < list.len() && #[trigger] alive[i],
    decreases list.len(),
{
    if list.len() > 0 {
        let less = list.drop_last();
        lemma_living(less, alive);
        if living(less, alive).len() > 0 {
            let i = choose|i: int| 0 <= i < less.len() && #[trigger] alive[i];
            assert(0 <= i < list.len() && alive[i]);
        }
        if alive[list.len() - 1] {
            assert(0 <= list.len() - 1 < list.len() && alive[list.len() - 1]);
        }
        if exists|i: int| 0 <= i < list.len() && #[trigger] alive[i] {
            let i = choose|i: int| 0 <= i < list.len() && #[trigger] alive[i];
            if i < less.len() {
                assert(0 <= i < less.len() && alive[i]);
            }
        }
    }
}

/// A session runs exactly where one of its processes still exists. It is gone
/// where none does and each of them could be tested. In every other case, and
/// where qex does not know who asked, its state is unknown.
pub proof fn law_the_state_of_a_session(record: &PauseRecord, same_namespace: bool, alive: &Vec<
    bool,
>, r: (IssuerState, Option<String>))
    requires
        alive@.len() == asked(*record).len(),
        call_ensures(judge, (record, same_namespace, alive), r),
    ensures
        ({
            let known = record.issuer_chain is Some && !record.fault && same_namespace && asked(
                *record,
            ).len() > 0;
            let lives = exists|i: int| 0 <= i < alive@.len() && #[trigger] alive@[i];
            let tested = forall|i: int|
                0 <= i < asked(*record).len() ==> (#[trigger] asked(*record)[i]).start is Some;
            &&& r.0 is Running <==> known && lives
            &&& r.0 is Gone <==> known && !lives && tested
            &&& r.0 is Unknown <==> !known || (!lives && !tested)
        }),
{
    lemma_living(asked(*record), alive@);
}

/// A reader is in the session of a request exactly where the two chains share a
/// process below the ends of their sessions. It is not where their sessions have
/// no process in common at all, and qex does not know it in every other case.
pub proof fn law_the_reader_of_a_request(
    issuer: Option<&[Ancestor]>,
    reader: Option<&[Ancestor]>,
    r: Relation,
)
    requires
        call_ensures(relation, (issuer, reader), r),
    ensures
        issuer is None || reader is None ==> r is Unknown,
        issuer is Some && reader is Some ==> {
            let a = issuer->0@;
            let b = reader->0@;
            &&& r is Yes <==> context::one_session(a, b)
            &&& r is No <==> !context::one_session(a, b) && session_of(a).len() > 0 && session_of(
                b,
            ).len() > 0 && forall|i: int, j: int|
                0 <= i < session_of(a).len() && 0 <= j < session_of(b).len()
                    ==> !#[trigger] context::same_process(session_of(a)[i], session_of(b)[j])
        },
{
}

/// A process still exists exactly where the process that has its number now
/// started at the same known time.
pub proof fn law_when_a_process_still_exists(process: &Ancestor, token: Option<u64>, r: bool)
    requires
        call_ensures(still_exists, (process, token), r),
    ensures
        r <==> process.start is Some && token is Some && token->0 == process.start->0,
{
}

proof fn lemma_oldest(list: Seq<PauseRecord>, n: nat)
    requires
        0 < n <= list.len(),
    ensures
        0 <= oldest(list, n) < n,
        forall|i: int| 0 <= i < n ==> list[oldest(list, n)].paused_at <= (#[trigger] list[i]).paused_at,
        forall|i: int|
            0 <= i < oldest(list, n) ==> list[oldest(list, n)].paused_at < (
            #[trigger] list[i]).paused_at,
    decreases n,
{
    if n > 1 {
        lemma_oldest(list, (n - 1) as nat);
    }
}

proof fn lemma_common_end(list: Seq<PauseRecord>, n: nat)
    requires
        0 < n <= list.len(),
    ensures
        common_end(list, n) is None <==> exists|i: int|
            0 <= i < n && (#[trigger] list[i]).until is None,
        common_end(list, n) is Some ==> (forall|i: int|
            0 <= i < n ==> (#[trigger] list[i]).until->0 <= common_end(list, n)->0) && exists|
            i: int,
        | 0 <= i < n && (#[trigger] list[i]).until == common_end(list, n),
    decreases n,
{
    if n > 1 {
        let m = (n - 1) as nat;
        lemma_common_end(list, m);
        if common_end(list, m) is None {
            let i = choose|i: int| 0 <= i < m && (#[trigger] list[i]).until is None;
            assert(list[i].until is None);
        } else {
            let i = choose|i: int| 0 <= i < m && (#[trigger] list[i]).until == common_end(list, m);
            assert(list[i].until == common_end(list, m));
        }
    }
    assert(list[n - 1].until == list[n - 1].until);
}

/// The one record for a set starts at the oldest request. It has an end only
/// where every request has one, and then the latest of them, and it holds no
/// process id.
pub proof fn law_one_record_for_a_set(records: &[PauseRecord], r: Option<PauseRecord>, i: int)
    requires
        call_ensures(for_an_earlier_cli, (records,), r),
        0 <= i < records@.len(),
    ensures
        r is Some,
        r->0.paused_at <= records@[i].paused_at,
        exists|k: int|
            0 <= k < records@.len() && (#[trigger] records@[k]).paused_at == r->0.paused_at
                && records@[k].id@ == r->0.id@,
        records@[i].until is None ==> r->0.until is None,
        r->0.until is Some ==> records@[i].until->0 <= r->0.until->0,
        r->0.until is None ==> exists|k: int|
            0 <= k < records@.len() && (#[trigger] records@[k]).until is None,
        r->0.by_pid == 0 && r->0.issuer_chain is None,
{
    lemma_oldest(records@, records@.len());
    lemma_common_end(records@, records@.len());
    let k = oldest(records@, records@.len());
    assert(records@[k].paused_at == r->0.paused_at);
}

/// A view shows the request itself: its id, its moments, its reason and what
/// made it.
pub proof fn law_a_view_shows_the_request(
    record: &PauseRecord,
    reader: Option<&[Ancestor]>,
    same_namespace: bool,
    alive: &Vec<bool>,
    v: PauseView,
)
    requires
        alive@.len() == asked(*record).len(),
        call_ensures(view_of, (record, reader, same_namespace, alive), v),
    ensures
        v.pause_id@ == record.id@ && v.made_at == record.paused_at && v.until == record.until
            && v.fault == record.fault,
        v.reason is Some <==> record.reason is Some,
        record.reason is Some ==> v.reason->0@ == record.reason->0@,
        v.caller_reported_pid is Some <==> record.by_pid > 0,
        v.issuer_chain is Some <==> record.issuer_chain is Some,
        v.issuer_chain is Some ==> v.issuer_chain->0@.len() == record.issuer_chain->0@.len()
            && forall|i: int|
            0 <= i < v.issuer_chain->0@.len() ==> (#[trigger] v.issuer_chain->0@[i]).host_pid
                == record.issuer_chain->0@[i].pid && v.issuer_chain->0@[i].start
                == record.issuer_chain->0@[i].start && v.issuer_chain->0@[i].name@
                == record.issuer_chain->0@[i].name@,
{
}

/// The view of a request of this namespace says that its session runs where the
/// machine finds each of its processes, and never where the machine finds none.
pub proof fn law_a_view_follows_the_machine<F: Fn(&Ancestor) -> bool>(
    record: &PauseRecord,
    reader: Option<&[Ancestor]>,
    lives: &F,
    v: PauseView,
)
    requires
        call_ensures(view::<F>, (record, reader, true, lives), v),
        record.issuer_chain is Some,
        asked(*record).len() > 0,
        !record.fault,
    ensures
        (forall|p: &Ancestor, r: bool| #[trigger] call_ensures(*lives, (p,), r) ==> r)
            ==> v.issuer_session_state is Running,
        (forall|p: &Ancestor, r: bool| #[trigger] call_ensures(*lives, (p,), r) ==> !r)
            ==> !(v.issuer_session_state is Running),
{
    let alive = choose|alive: Seq<bool>| #[trigger]
        answered(*record, *lives, alive) && shows(v, *record, chain_of(reader), true, alive);
    lemma_living(asked(*record), alive);
    assert(alive.len() == asked(*record).len());
    assert(call_ensures(*lives, (&asked(*record)[0],), alive[0]));
}

} // verus!

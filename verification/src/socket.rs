//! Who listens at the socket: the lock on the pid file, the answer of a
//! connect, and the sweep of the directories that no coordinator uses.
//!
//! The caller makes the calls of the system. The functions here say what each
//! result means and what comes next.

use crate::paths;
use crate::system;
use crate::system::Errors;
use crate::text;
use vstd::prelude::*;
use vstd::string::*;

verus! {

/// The name of the file that holds the process id of the coordinator.
pub const PID_FILE: &'static str = "pid";

/// The time that qex waits for one socket to answer, in milliseconds.
pub const SOCKET_ANSWER_LIMIT: u64 = 100;

/// The time that one sweep of the temporary directory can take, in
/// milliseconds.
pub const SWEEP_LIMIT: u64 = 3000;

/// The time that a coordinator tries for the lock before it gives up, in
/// milliseconds. A sweep holds the lock for a tenth of it at most.
pub const PID_LOCK_PATIENCE: u64 = 1000;

/// The number of times that a coordinator opens the pid file.
pub const PID_LOCK_ATTEMPTS: u32 = 5;

/// The number of times that a signal can stop the call for the lock.
pub const LOCK_CALLS: u32 = 5;

// ---------------------------------------------------------------------------
// The short directory.
// ---------------------------------------------------------------------------

/// What stands at a path.
#[derive(Debug, Clone, Copy, PartialEq, Eq, Structural)]
pub enum Found {
    /// qex cannot read anything about the path.
    Nothing,
    /// Something with an owner.
    Entry { is_dir: bool, owner: u32 },
}

/// The text that refuses a path for the socket.
pub open spec fn short_dir_refusal(dir: Seq<char>, found: Found, uid: u32) -> Option<Seq<char>> {
    match found {
        Found::Nothing => None,
        Found::Entry { is_dir, owner } => if !is_dir {
            Some(
                "qex needs the directory "@ + dir
                    + " for its socket, but that path is a file"@,
            )
        } else if owner != uid {
            Some(
                "the directory "@ + dir + " belongs to the user "@ + text::digits(owner as nat)
                    + ", and qex will not use it"@,
            )
        } else {
            None
        },
    }
}

/// Tests if qex can use the short directory for its socket.
///
/// Every user can write the directory above it. qex thus refuses a file, and a
/// directory of a different user.
pub fn check_short_dir(dir: &str, found: Found, uid: u32) -> (r: Result<(), String>)
    ensures
        match r {
            Ok(_) => short_dir_refusal(dir@, found, uid) is None,
            Err(e) => short_dir_refusal(dir@, found, uid) == Some(e@),
        },
{
    match found {
        Found::Nothing => Ok(()),
        Found::Entry { is_dir, owner } => {
            if !is_dir {
                let mut m = text::owned("qex needs the directory ");
                m.append(dir);
                m.append(" for its socket, but that path is a file");
                return Err(m);
            }
            if owner != uid {
                let mut m = text::owned("the directory ");
                m.append(dir);
                m.append(" belongs to the user ");
                m.append(text::decimal(owner as u64).as_str());
                m.append(", and qex will not use it");
                return Err(m);
            }
            Ok(())
        },
    }
}

// ---------------------------------------------------------------------------
// The lock.
// ---------------------------------------------------------------------------

/// The result of one try for the lock.
#[derive(Debug)]
pub enum LockTry {
    /// This process holds the lock now.
    Taken,
    /// A different process holds the lock.
    Held,
    /// The try failed. The text says why.
    Failed(String),
}

/// The result of one call for the lock.
#[derive(Debug)]
pub enum LockCall {
    Taken,
    /// The call would wait for a different process.
    WouldBlock,
    /// A signal stopped the call.
    Interrupted,
    /// The call failed. The text says why.
    Fault(String),
}

/// Reads the result of a call for the lock. `calls` is the number of calls that
/// were made, this one with them. The result is `None` when the caller calls
/// again: a signal is not a refusal. `interrupted` is the text of an error that
/// a signal caused.
pub fn try_lock(calls: u32, call: LockCall, interrupted: &str) -> (r: Option<LockTry>)
    ensures
        match call {
            LockCall::Taken => r matches Some(LockTry::Taken),
            LockCall::WouldBlock => r matches Some(LockTry::Held),
            LockCall::Interrupted => if calls < LOCK_CALLS {
                r is None
            } else {
                r matches Some(LockTry::Failed(t)) && t@ == interrupted@
            },
            LockCall::Fault(e) => r matches Some(LockTry::Failed(t)) && t@ == e@,
        },
{
    match call {
        LockCall::Taken => Some(LockTry::Taken),
        LockCall::WouldBlock => Some(LockTry::Held),
        LockCall::Interrupted => {
            if calls < LOCK_CALLS {
                None
            } else {
                Some(LockTry::Failed(text::owned(interrupted)))
            }
        },
        LockCall::Fault(e) => Some(LockTry::Failed(e)),
    }
}

/// The state of the pid file of a socket directory.
#[derive(Debug, PartialEq, Eq, Clone, Copy, Structural)]
pub enum PidFile {
    /// A process holds the lock on the file. That process operates.
    Held,
    /// No process holds the lock. A file that is not there gives this state as
    /// well.
    Free,
    /// qex cannot test the file.
    Unknown,
}

/// The result of the open of a file.
#[derive(Debug)]
pub enum OpenFile {
    Opened,
    /// The file is not there. The text says so.
    NotFound(String),
    /// The open failed. The text says why.
    Fault(String),
}

/// Reads the state of a pid file. `lock` is the try for the lock on the file,
/// where it could be opened.
pub fn pid_file_state(open: &OpenFile, lock: &LockTry) -> (r: PidFile)
    ensures
        r == match *open {
            OpenFile::NotFound(_) => PidFile::Free,
            OpenFile::Fault(_) => PidFile::Unknown,
            OpenFile::Opened => match *lock {
                LockTry::Taken => PidFile::Free,
                LockTry::Held => PidFile::Held,
                LockTry::Failed(_) => PidFile::Unknown,
            },
        },
{
    match open {
        OpenFile::NotFound(_) => PidFile::Free,
        OpenFile::Fault(_) => PidFile::Unknown,
        OpenFile::Opened => match lock {
            LockTry::Taken => PidFile::Free,
            LockTry::Held => PidFile::Held,
            LockTry::Failed(_) => PidFile::Unknown,
        },
    }
}

/// Where a coordinator is in its try for the pid file.
#[derive(Debug, Clone, Copy, PartialEq, Eq, Structural)]
pub enum Phase {
    /// The caller opens the file.
    Opening,
    /// The caller tries for the lock.
    Locking,
    /// The caller holds the lock, and it counts the names of the file.
    Looking,
    /// The caller writes its number into the file.
    Writing,
}

/// What the caller did.
#[derive(Debug)]
pub enum PidEvent {
    Open(OpenFile),
    /// The try for the lock, and if the time for it is over.
    Lock { lock: LockTry, late: bool },
    /// The number of names that point to the file, where it could be read.
    Links(Option<u64>),
    /// The write of the number, with the text of its fault.
    Write(Option<String>),
}

/// What the caller does next.
#[derive(Debug)]
pub enum PidHold {
    /// Open the file, with no truncation.
    Open,
    /// Try for the lock.
    Lock,
    /// Wait a short time, and try for the lock again.
    Sleep,
    /// Count the names of the file.
    Look,
    /// Write the number of this process.
    Write,
    /// This process holds the lock, and it wrote its number into the file.
    Held,
    /// A different process holds the lock. A coordinator operates.
    Busy,
    /// qex cannot use the file. The text says what the reader must do.
    Unusable(String),
}

/// What a try for the pid file comes to.
pub enum Move {
    /// The try goes on in a phase, in the open with this number.
    Go(Phase, nat),
    Held,
    Busy,
    Unusable(Seq<char>),
}

/// The event that a phase waits for.
pub open spec fn fits(phase: Phase, event: PidEvent) -> bool {
    match phase {
        Phase::Opening => event is Open,
        Phase::Locking => event is Lock,
        Phase::Looking => event is Links,
        Phase::Writing => event is Write,
    }
}

/// What the event makes of the try for the file at `path`.
pub open spec fn moved(path: Seq<char>, attempt: nat, event: PidEvent) -> Move {
    match event {
        PidEvent::Open(OpenFile::Opened) => Move::Go(Phase::Locking, attempt),
        PidEvent::Open(OpenFile::NotFound(e)) => Move::Unusable(
            "qex cannot make the file "@ + path + ": "@ + e@ + ". Start qex again."@,
        ),
        PidEvent::Open(OpenFile::Fault(e)) => Move::Unusable(
            "qex cannot open the file "@ + path + ": "@ + e@
                + ". Delete that file if no coordinator operates."@,
        ),
        PidEvent::Lock { lock, late } => match lock {
            LockTry::Taken => Move::Go(Phase::Looking, attempt),
            LockTry::Held => if late {
                Move::Busy
            } else {
                Move::Go(Phase::Locking, attempt)
            },
            LockTry::Failed(e) => Move::Unusable(
                "qex cannot lock the file "@ + path + ": "@ + e@
                    + ". Delete that file if no coordinator operates."@,
            ),
        },
        PidEvent::Links(n) => if n != Some(0u64) {
            Move::Go(Phase::Writing, attempt)
        } else if attempt < PID_LOCK_ATTEMPTS {
            Move::Go(Phase::Opening, attempt + 1)
        } else {
            Move::Unusable(
                "a sweep deleted the file "@ + path
                    + " while qex took the lock on it. Start qex again."@,
            )
        },
        PidEvent::Write(None) => Move::Held,
        PidEvent::Write(Some(e)) => Move::Unusable(
            "qex cannot write the file "@ + path + ": "@ + e@
                + ". Delete that file if no coordinator operates."@,
        ),
    }
}

/// The try of one coordinator for the lock on the pid file beside its socket.
///
/// THE LOCK IS THE EVIDENCE OF LIFE, AND THE NUMBER IN THE FILE IS NOT. The
/// system gives a lock back when the process stops, whatever stops it.
#[derive(Debug)]
pub struct PidFileLock {
    pub path: String,
    pub phase: Phase,
    /// The number of the open that the try is in, from 1.
    pub attempt: u32,
}

/// The text of a fault of the file.
fn fault(start: &str, path: &str, why: &str, end: &str) -> (r: String)
    ensures
        r@ == start@ + path@ + ": "@ + why@ + end@,
{
    let mut m = text::owned(start);
    m.append(path);
    m.append(": ");
    m.append(why);
    m.append(end);
    m
}

/// Starts the try for the pid file beside the socket. The first thing to do
/// is to open the file.
pub fn hold_pid_file(socket: &str) -> (r: Result<PidFileLock, String>)
    ensures
        match r {
            Ok(t) => {
                &&& paths::parent_of(socket@) is Some
                &&& t.path@ == paths::joined(paths::parent_of(socket@)->0, PID_FILE@)
                &&& t.phase == Phase::Opening
                &&& t.attempt == 1
                &&& t.wf()
            },
            Err(e) => {
                &&& paths::parent_of(socket@) is None
                &&& e@ == "the socket path "@ + socket@ + " has no directory"@
            },
        },
{
    match paths::parent(socket) {
        Some(dir) => Ok(
            PidFileLock {
                path: paths::join(dir.as_str(), PID_FILE),
                phase: Phase::Opening,
                attempt: 1,
            },
        ),
        None => {
            let mut m = text::owned("the socket path ");
            m.append(socket);
            m.append(" has no directory");
            Err(m)
        },
    }
}

impl PidFileLock {
    /// The number of the open is in its range.
    pub open spec fn wf(self) -> bool {
        1 <= self.attempt <= PID_LOCK_ATTEMPTS
    }

    /// The step and the new value are what the move says.
    pub open spec fn shows(self, step: PidHold, m: Move, before: PidFileLock) -> bool {
        &&& self.path@ == before.path@
        &&& match m {
            Move::Go(p, n) => {
                &&& self.phase == p
                &&& self.attempt == n
                &&& match step {
                    PidHold::Open => p == Phase::Opening,
                    PidHold::Lock => p == Phase::Locking && before.phase == Phase::Opening,
                    PidHold::Sleep => p == Phase::Locking && before.phase == Phase::Locking,
                    PidHold::Look => p == Phase::Looking,
                    PidHold::Write => p == Phase::Writing,
                    _ => false,
                }
            },
            Move::Held => step is Held,
            Move::Busy => step is Busy,
            Move::Unusable(t) => step matches PidHold::Unusable(s) && s@ == t,
        }
    }

    /// Takes what the caller did, and gives what it does next.
    pub fn next(&mut self, event: PidEvent) -> (r: PidHold)
        requires
            old(self).wf(),
            fits(old(self).phase, event),
        ensures
            final(self).wf(),
            final(self).shows(
                r,
                moved(old(self).path@, old(self).attempt as nat, event),
                *old(self),
            ),
    {
        match event {
            PidEvent::Open(OpenFile::Opened) => {
                self.phase = Phase::Locking;
                PidHold::Lock
            },
            PidEvent::Open(OpenFile::NotFound(e)) => PidHold::Unusable(
                fault(
                    "qex cannot make the file ",
                    self.path.as_str(),
                    e.as_str(),
                    ". Start qex again.",
                ),
            ),
            PidEvent::Open(OpenFile::Fault(e)) => PidHold::Unusable(
                fault(
                    "qex cannot open the file ",
                    self.path.as_str(),
                    e.as_str(),
                    ". Delete that file if no coordinator operates.",
                ),
            ),
            PidEvent::Lock { lock, late } => match lock {
                LockTry::Taken => {
                    self.phase = Phase::Looking;
                    PidHold::Look
                },
                LockTry::Held => {
                    if late {
                        PidHold::Busy
                    } else {
                        PidHold::Sleep
                    }
                },
                LockTry::Failed(e) => PidHold::Unusable(
                    fault(
                        "qex cannot lock the file ",
                        self.path.as_str(),
                        e.as_str(),
                        ". Delete that file if no coordinator operates.",
                    ),
                ),
            },
            PidEvent::Links(n) => {
                let gone = match n {
                    Some(k) => k == 0,
                    None => false,
                };
                if !gone {
                    self.phase = Phase::Writing;
                    PidHold::Write
                } else if self.attempt < PID_LOCK_ATTEMPTS {
                    self.phase = Phase::Opening;
                    self.attempt = self.attempt + 1;
                    PidHold::Open
                } else {
                    let mut m = text::owned("a sweep deleted the file ");
                    m.append(self.path.as_str());
                    m.append(" while qex took the lock on it. Start qex again.");
                    PidHold::Unusable(m)
                }
            },
            PidEvent::Write(None) => PidHold::Held,
            PidEvent::Write(Some(e)) => PidHold::Unusable(
                fault(
                    "qex cannot write the file ",
                    self.path.as_str(),
                    e.as_str(),
                    ". Delete that file if no coordinator operates.",
                ),
            ),
        }
    }
}

/// What a whole try comes to after the events.
pub open spec fn run(path: Seq<char>, events: Seq<PidEvent>) -> Move
    decreases events.len(),
{
    if events.len() == 0 {
        Move::Go(Phase::Opening, 1)
    } else {
        match run(path, events.drop_last()) {
            Move::Go(p, n) => moved(path, n, events.last()),
            m => m,
        }
    }
}

/// Each event of the try is the one that its phase waits for, and no event
/// follows its end.
pub open spec fn proper(path: Seq<char>, events: Seq<PidEvent>) -> bool
    decreases events.len(),
{
    events.len() > 0 ==> {
        &&& proper(path, events.drop_last())
        &&& run(path, events.drop_last()) matches Move::Go(p, n) && fits(p, events.last())
    }
}

/// A coordinator holds its pid file only after it took the lock, found that a
/// name still points to the locked file, and wrote its number, in this order
/// and with nothing between.
pub proof fn law_held_means_the_lock_and_a_name(path: Seq<char>, events: Seq<PidEvent>)
    requires
        proper(path, events),
        run(path, events) is Held,
    ensures
        events.len() >= 4,
        events[events.len() - 1] == PidEvent::Write(None),
        events[events.len() - 2] matches PidEvent::Links(n) && n != Some(0u64),
        events[events.len() - 3] matches PidEvent::Lock { lock, .. } && lock is Taken,
{
    reveal_with_fuel(run, 4);
    reveal_with_fuel(proper, 4);
    let a = events.drop_last();
    assert(a.len() > 0);
    let b = a.drop_last();
    assert(run(path, a) is Go);
    assert(b.len() > 0);
    let c = b.drop_last();
    assert(c.len() > 0);
    assert(a.last() == events[events.len() - 2]);
    assert(b.last() == events[events.len() - 3]);
}

/// A try opens the file at most `PID_LOCK_ATTEMPTS` times.
pub proof fn law_a_try_ends(path: Seq<char>, events: Seq<PidEvent>)
    requires
        proper(path, events),
    ensures
        run(path, events) matches Move::Go(p, n) ==> 1 <= n <= PID_LOCK_ATTEMPTS,
    decreases events.len(),
{
    if events.len() > 0 {
        law_a_try_ends(path, events.drop_last());
    }
}

// ---------------------------------------------------------------------------
// The answer of a socket.
// ---------------------------------------------------------------------------

/// The answer of a socket to a connection.
#[derive(Debug, PartialEq, Eq, Clone, Copy, Structural)]
pub enum SocketAnswer {
    /// A process accepted the connection. A coordinator operates there.
    Answers,
    /// Nobody listens at the socket. This answer is the one proof of an unused
    /// socket.
    NobodyListens,
    /// The answer is not known.
    Unknown,
}

/// What an error of a connect says. Three errors are a statement about the
/// path; every other one gives `Unknown`.
pub open spec fn answer(error: Option<i32>, codes: Errors) -> SocketAnswer {
    match error {
        Some(e) => if e == codes.connrefused || e == codes.noent || e == codes.notsock {
            SocketAnswer::NobodyListens
        } else {
            SocketAnswer::Unknown
        },
        None => SocketAnswer::Unknown,
    }
}

/// Reads the error of a connect by a table of numbers.
pub fn answer_by(error: Option<i32>, codes: &Errors) -> (r: SocketAnswer)
    ensures
        r == answer(error, *codes),
{
    match error {
        Some(e) => {
            if e == codes.connrefused || e == codes.noent || e == codes.notsock {
                SocketAnswer::NobodyListens
            } else {
                SocketAnswer::Unknown
            }
        },
        None => SocketAnswer::Unknown,
    }
}

/// Reads the error of a connect by the numbers of this system.
pub fn answer_of(error: Option<i32>) -> (r: SocketAnswer)
    ensures
        exists|codes: Errors|
            system::known_errors(codes) && r == #[trigger] answer(error, codes),
{
    let codes = system::errors();
    answer_by(error, &codes)
}

/// What the wait for a connect gave.
#[derive(Debug, Clone, Copy, PartialEq, Eq, Structural)]
pub enum PollAnswer {
    /// The time ended first.
    Late,
    /// The wait failed with this error.
    Fault(Option<i32>),
    /// The socket is ready, and its error could not be read.
    Unread,
    /// The socket is ready, and this is its error. 0 is no error.
    Ready(i32),
}

/// What the wait says; `None` when the caller can try again.
pub open spec fn finished(poll: PollAnswer, codes: Errors) -> Option<SocketAnswer> {
    match poll {
        PollAnswer::Late => Some(SocketAnswer::Unknown),
        PollAnswer::Fault(e) => if e == Some(codes.intr) {
            None
        } else {
            Some(answer(e, codes))
        },
        PollAnswer::Unread => Some(SocketAnswer::Unknown),
        PollAnswer::Ready(e) => if e == 0 {
            Some(SocketAnswer::Answers)
        } else if e == codes.again || e == codes.intr {
            None
        } else {
            Some(answer(Some(e), codes))
        },
    }
}

/// Reads the wait for a connect by a table of numbers.
pub fn finish_by(poll: PollAnswer, codes: &Errors) -> (r: Option<SocketAnswer>)
    ensures
        r == finished(poll, *codes),
{
    match poll {
        PollAnswer::Late => Some(SocketAnswer::Unknown),
        PollAnswer::Fault(e) => {
            if is_code(e, codes.intr) {
                None
            } else {
                Some(answer_by(e, codes))
            }
        },
        PollAnswer::Unread => Some(SocketAnswer::Unknown),
        PollAnswer::Ready(e) => {
            if e == 0 {
                Some(SocketAnswer::Answers)
            } else if e == codes.again || e == codes.intr {
                None
            } else {
                Some(answer_by(Some(e), codes))
            }
        },
    }
}

/// Reads the wait for a connect that the system did not finish at once.
pub fn finish_connect(poll: PollAnswer) -> (r: Option<SocketAnswer>)
    ensures
        exists|codes: Errors|
            system::known_errors(codes) && r == #[trigger] finished(poll, codes),
{
    let codes = system::errors();
    finish_by(poll, &codes)
}

fn is_code(e: Option<i32>, code: i32) -> (r: bool)
    ensures
        r == (e == Some(code)),
{
    match e {
        Some(n) => n == code,
        None => false,
    }
}

/// What one attempt to connect gave.
#[derive(Debug, Clone, Copy, PartialEq, Eq, Structural)]
pub enum ConnectCall {
    /// This process could make no socket that does not block.
    NoSocket,
    Connected,
    /// The connect failed with this error.
    Fault(Option<i32>),
}

/// What comes after an attempt to connect.
#[derive(Debug, Clone, Copy, PartialEq, Eq, Structural)]
pub enum Attempt {
    /// The system gave an answer.
    Answer(SocketAnswer),
    /// The system finishes this connect later. Wait for it.
    Wait,
    /// The socket is full at this moment, or a signal stopped the call.
    Again,
}

/// What an attempt says.
pub open spec fn attempted(call: ConnectCall, codes: Errors) -> Attempt {
    match call {
        ConnectCall::NoSocket => Attempt::Answer(SocketAnswer::Unknown),
        ConnectCall::Connected => Attempt::Answer(SocketAnswer::Answers),
        ConnectCall::Fault(e) => if e == Some(codes.inprogress) {
            Attempt::Wait
        } else if e == Some(codes.again) || e == Some(codes.intr) {
            Attempt::Again
        } else {
            Attempt::Answer(answer(e, codes))
        },
    }
}

/// Reads an attempt to connect by a table of numbers.
pub fn attempt_by(call: ConnectCall, codes: &Errors) -> (r: Attempt)
    ensures
        r == attempted(call, *codes),
{
    match call {
        ConnectCall::NoSocket => Attempt::Answer(SocketAnswer::Unknown),
        ConnectCall::Connected => Attempt::Answer(SocketAnswer::Answers),
        ConnectCall::Fault(e) => {
            if is_code(e, codes.inprogress) {
                Attempt::Wait
            } else if is_code(e, codes.again) || is_code(e, codes.intr) {
                Attempt::Again
            } else {
                Attempt::Answer(answer_by(e, codes))
            }
        },
    }
}

/// Reads an attempt to connect by the numbers of this system.
pub fn connect_once(call: ConnectCall) -> (r: Attempt)
    ensures
        exists|codes: Errors|
            system::known_errors(codes) && r == #[trigger] attempted(call, codes),
{
    let codes = system::errors();
    attempt_by(call, &codes)
}

/// What qex saw at the path of the socket.
#[derive(Debug, Clone, Copy, PartialEq, Eq, Structural)]
pub enum Look {
    /// There is a file, and an address can hold its path.
    Address,
    /// There is a file, and its path is too long for an address.
    TooLong,
    /// There is no file.
    NotFound,
    /// qex cannot look at the path.
    Fault,
}

/// Tests if an address with the space can hold the path and a final zero byte.
pub fn unix_address(path: &str, space: usize) -> (r: bool)
    ensures
        r == (paths::bytes_of(path@).len() < space),
{
    path.as_bytes().len() < space
}

/// What a question to a socket comes to; `None` when the caller tries again.
pub open spec fn asked(look: Look, attempt: Option<SocketAnswer>, late: bool) -> Option<
    SocketAnswer,
> {
    match look {
        Look::NotFound => Some(SocketAnswer::NobodyListens),
        Look::Fault | Look::TooLong => Some(SocketAnswer::Unknown),
        Look::Address => match attempt {
            Some(a) => Some(a),
            None => if late {
                Some(SocketAnswer::Unknown)
            } else {
                None
            },
        },
    }
}

/// The answer of a socket that qex only asks. `attempt` is `None` when the
/// attempt said to try again. The result is `None` when the caller does so.
///
/// Only a path with no file and the answer of the socket itself say that nobody
/// listens. A path that qex cannot look at says nothing.
pub fn ask_socket(look: Look, attempt: Option<SocketAnswer>, late: bool) -> (r: Option<
    SocketAnswer,
>)
    ensures
        r == asked(look, attempt, late),
{
    match look {
        Look::NotFound => Some(SocketAnswer::NobodyListens),
        Look::Fault | Look::TooLong => Some(SocketAnswer::Unknown),
        Look::Address => match attempt {
            Some(a) => Some(a),
            None => {
                if late {
                    Some(SocketAnswer::Unknown)
                } else {
                    None
                }
            },
        },
    }
}

/// The answer of a connect that keeps the connection.
#[derive(Debug, Clone, Copy, PartialEq, Eq, Structural)]
pub enum Connected {
    /// A coordinator accepted, and the caller holds the connection.
    Open,
    /// Nobody listens at the socket. A caller may start a coordinator.
    NobodyListens,
    /// The socket gave no answer. A process can hold it, so a caller must not
    /// start a second coordinator.
    NoAnswer,
}

/// What a connect comes to; `None` when the caller tries again.
pub open spec fn connection(
    look: Look,
    attempt: Option<SocketAnswer>,
    blocking: bool,
    late: bool,
) -> Option<Connected> {
    match look {
        Look::NotFound => Some(Connected::NobodyListens),
        Look::Fault | Look::TooLong => Some(Connected::NoAnswer),
        Look::Address => match attempt {
            Some(SocketAnswer::Answers) => if blocking {
                Some(Connected::Open)
            } else {
                Some(Connected::NoAnswer)
            },
            Some(SocketAnswer::NobodyListens) => Some(Connected::NobodyListens),
            Some(SocketAnswer::Unknown) => Some(Connected::NoAnswer),
            None => if late {
                Some(Connected::NoAnswer)
            } else {
                None
            },
        },
    }
}

/// Reads a connect that keeps the connection.
///
/// `blocking` is true when the connection has the blocking form again. Only
/// "there is no file" and the answer of the socket itself say that nobody
/// listens: that answer lets a caller start a coordinator, so no other fault
/// gives it.
pub fn connect_within(
    look: Look,
    attempt: Option<SocketAnswer>,
    blocking: bool,
    late: bool,
) -> (r: Option<Connected>)
    ensures
        r == connection(look, attempt, blocking, late),
{
    match look {
        Look::NotFound => Some(Connected::NobodyListens),
        Look::Fault | Look::TooLong => Some(Connected::NoAnswer),
        Look::Address => match attempt {
            Some(SocketAnswer::Answers) => {
                if blocking {
                    Some(Connected::Open)
                } else {
                    Some(Connected::NoAnswer)
                }
            },
            Some(SocketAnswer::NobodyListens) => Some(Connected::NobodyListens),
            Some(SocketAnswer::Unknown) => Some(Connected::NoAnswer),
            None => {
                if late {
                    Some(Connected::NoAnswer)
                } else {
                    None
                }
            },
        },
    }
}

/// An unknown answer authorises nothing: a connect lets the caller start a
/// coordinator, and a question lets the sweep delete a directory, only where
/// there is no file at the path, or where the system gave one of the three errors
/// that speak about the path.
pub proof fn law_an_unknown_answer_authorises_nothing(
    look: Look,
    call: ConnectCall,
    codes: Errors,
    blocking: bool,
    late: bool,
)
    requires
        attempted(call, codes) is Answer,
        connection(look, Some(attempted(call, codes)->0), blocking, late) == Some(
            Connected::NobodyListens,
        ) || asked(look, Some(attempted(call, codes)->0), late) == Some(
            SocketAnswer::NobodyListens,
        ),
    ensures
        look is NotFound || (call matches ConnectCall::Fault(Some(e)) && (e == codes.connrefused
            || e == codes.noent || e == codes.notsock)),
{
}

// ---------------------------------------------------------------------------
// The sweep.
// ---------------------------------------------------------------------------

/// What the sweep does with one entry of the temporary directory.
#[derive(Debug, Clone, Copy, PartialEq, Eq, Structural)]
pub enum Sweep {
    /// The time is over. The next coordinator continues the work.
    Stop,
    /// The entry stays.
    Keep,
    /// Try for the lock of the directory, and ask its socket.
    Claim,
}

/// True when one of the paths is the path.
pub open spec fn listed(own: Seq<String>, path: Seq<char>) -> bool {
    exists|i: int| 0 <= i < own.len() && paths::one_path(#[trigger] own[i]@, path)
}

/// True when the sweep looks at the entry at all: the name is that of a short
/// directory of the user, it is not a directory of this process, and it is a
/// directory that the user owns.
pub open spec fn candidate(
    name: Seq<char>,
    path: Seq<char>,
    own: Seq<String>,
    found: Found,
    uid: u32,
) -> bool {
    &&& text::begins(name, paths::short_prefix(uid as nat))
    &&& !listed(own, path)
    &&& found == (Found::Entry { is_dir: true, owner: uid })
}

/// Decides about one entry of the temporary directory. The time is in
/// milliseconds.
pub fn sweep_socket_dirs(
    elapsed: u64,
    limit: u64,
    name: &str,
    path: &str,
    own: &Vec<String>,
    found: Found,
    uid: u32,
) -> (r: Sweep)
    ensures
        r == if elapsed >= limit {
            Sweep::Stop
        } else if candidate(name@, path@, own@, found, uid) {
            Sweep::Claim
        } else {
            Sweep::Keep
        },
{
    if elapsed >= limit {
        return Sweep::Stop;
    }
    if !text::starts_with(name, paths::prefix(uid).as_str()) {
        return Sweep::Keep;
    }
    let mut i: usize = 0;
    while i < own.len()
        invariant
            i <= own@.len(),
            elapsed < limit,
            forall|k: int| 0 <= k < i ==> !paths::one_path(#[trigger] own@[k]@, path@),
        decreases own@.len() - i,
    {
        if paths::same_path(own[i].as_str(), path) {
            assert(paths::one_path(own@[i as int]@, path@));
            return Sweep::Keep;
        }
        i += 1;
    }
    match found {
        Found::Entry { is_dir, owner } => {
            if is_dir && owner == uid {
                Sweep::Claim
            } else {
                Sweep::Keep
            }
        },
        Found::Nothing => Sweep::Keep,
    }
}

/// Tests if the sweep can delete a directory: it holds the lock on the pid
/// file, and nobody listens at the socket. Every other answer keeps it.
pub fn claim_unused_dir(open: &OpenFile, lock: &LockTry, answer: SocketAnswer) -> (r: bool)
    ensures
        r == (*open is Opened && *lock is Taken && answer == SocketAnswer::NobodyListens),
{
    let opened = match open {
        OpenFile::Opened => true,
        _ => false,
    };
    let taken = match lock {
        LockTry::Taken => true,
        _ => false,
    };
    let nobody = match answer {
        SocketAnswer::NobodyListens => true,
        _ => false,
    };
    opened && taken && nobody
}

// ---------------------------------------------------------------------------
// The program file.
// ---------------------------------------------------------------------------

/// What the system adds to the name of a program file that is gone.
pub const DELETED: &'static str = " (deleted)";

/// The text without the mark of a deleted file at its end.
pub open spec fn unmarked(exe: Seq<char>) -> Option<Seq<char>> {
    let n = exe.len() - DELETED@.len();
    if n >= 0 && exe.skip(n) == DELETED@ {
        Some(exe.take(n))
    } else {
        None
    }
}

/// Removes the mark of a deleted file.
pub fn without_mark(exe: &str) -> (r: Option<String>)
    ensures
        text::opt_view(r) == unmarked(exe@),
{
    let c = text::chars(exe);
    let m = text::chars(DELETED);
    if c.len() < m.len() {
        return None;
    }
    let n: usize = c.len() - m.len();
    let end = text::piece(&c, n, c.len());
    assert(exe@.subrange(n as int, exe@.len() as int) == exe@.skip(n as int));
    if !text::same(end.as_str(), DELETED) {
        return None;
    }
    let out = text::piece(&c, 0, n);
    assert(exe@.subrange(0, n as int) == exe@.take(n as int));
    Some(out)
}

/// Gives the path of the program file, in a form that qex can start again.
///
/// Something can replace the program file while it operates. The system then
/// adds a mark to its name, and the true path holds the new program. `present`
/// says if the file at `exe` is there, and `stripped_present` if the file at the
/// path without the mark is.
pub fn program_path(exe: &str, present: bool, stripped_present: bool) -> (r: Result<
    String,
    String,
>)
    ensures
        match unmarked(exe@) {
            _ if present => r matches Ok(p) && p@ == exe@,
            Some(path) => if stripped_present {
                r matches Ok(p) && p@ == path
            } else {
                r matches Err(e) && e@ == "the qex program file "@ + path
                    + " no longer exists. Something replaced or deleted it while the coordinator was operating. Stop the coordinator and start it again: `qex info --no-start --json` gives its process id."@
            },
            None => r matches Err(e) && e@ == "the qex program file "@ + exe@
                + " no longer exists. Stop the coordinator and start it again."@,
        },
{
    if present {
        return Ok(text::owned(exe));
    }
    match without_mark(exe) {
        Some(path) => {
            if stripped_present {
                return Ok(path);
            }
            let mut m = text::owned("the qex program file ");
            m.append(path.as_str());
            m.append(
                " no longer exists. Something replaced or deleted it while the coordinator was operating. Stop the coordinator and start it again: `qex info --no-start --json` gives its process id.",
            );
            Err(m)
        },
        None => {
            let mut m = text::owned("the qex program file ");
            m.append(exe);
            m.append(" no longer exists. Stop the coordinator and start it again.");
            Err(m)
        },
    }
}

/// Tests if something replaced the program file. `present` is `None` when the
/// system does not name the file.
pub fn program_file_changed(present: Option<bool>) -> (r: bool)
    ensures
        r == (present == Some(false)),
{
    match present {
        Some(p) => !p,
        None => false,
    }
}

// ---------------------------------------------------------------------------
// What the decisions promise.
// ---------------------------------------------------------------------------

/// qex uses a short directory that is missing or that is a directory of the
/// user, and refuses every other entry.
pub proof fn law_which_short_directory_is_used(
    dir: &str,
    found: Found,
    uid: u32,
    r: Result<(), String>,
)
    requires
        call_ensures(check_short_dir, (dir, found, uid), r),
    ensures
        r is Ok <==> found is Nothing || (found->is_dir && found->owner == uid),
{
}

/// One call decides about a lock, unless a signal stopped it. A call that a
/// signal stops is made again, five times at most.
pub proof fn law_when_a_lock_is_taken(
    calls: u32,
    call: LockCall,
    interrupted: &str,
    r: Option<LockTry>,
)
    requires
        call_ensures(try_lock, (calls, call, interrupted), r),
    ensures
        r is None <==> call is Interrupted && calls < 5,
        (r is Some && r->0 is Taken) <==> call is Taken,
        (r is Some && r->0 is Held) <==> call is WouldBlock,
{
}

/// A pid file is held exactly where it could be opened and another process has
/// the lock. It is free where it is missing or where the lock could be taken.
pub proof fn law_who_holds_a_pid_file(open: &OpenFile, lock: &LockTry, r: PidFile)
    requires
        call_ensures(pid_file_state, (open, lock), r),
    ensures
        r is Held <==> *open is Opened && *lock is Held,
        r is Free <==> *open is NotFound || (*open is Opened && *lock is Taken),
{
}

/// A try for the pid file waits while another process has the lock and there is
/// time, starts over where a sweep took the name of the file away, five times at
/// most, and goes on otherwise.
pub proof fn law_how_a_try_goes_on(path: Seq<char>, attempt: nat, lock: LockTry, late: bool, links: Option<
    u64,
>)
    ensures
        lock is Held ==> moved(path, attempt, PidEvent::Lock { lock, late }) == if late {
            Move::Busy
        } else {
            Move::Go(Phase::Locking, attempt)
        },
        lock is Taken ==> moved(path, attempt, PidEvent::Lock { lock, late }) == Move::Go(
            Phase::Looking,
            attempt,
        ),
        lock is Failed ==> moved(path, attempt, PidEvent::Lock { lock, late }) is Unusable,
        links == Some(0u64) && attempt < 5 ==> moved(path, attempt, PidEvent::Links(links))
            == Move::Go(Phase::Opening, attempt + 1),
        links == Some(0u64) && attempt >= 5 ==> moved(path, attempt, PidEvent::Links(links))
            is Unusable,
        links != Some(0u64) ==> moved(path, attempt, PidEvent::Links(links)) == Move::Go(
            Phase::Writing,
            attempt,
        ),
{
}

/// Nobody listens only where the error says so: the connection was refused, the
/// file is missing, or it is no socket. Every other error leaves it open.
pub proof fn law_which_errors_mean_that_nobody_listens(
    error: Option<i32>,
    codes: &Errors,
    r: SocketAnswer,
)
    requires
        call_ensures(answer_by, (error, codes), r),
    ensures
        r is NobodyListens <==> error is Some && (error->0 == codes.connrefused || error->0
            == codes.noent || error->0 == codes.notsock),
        r is Unknown <==> !(r is NobodyListens),
{
}

/// The end of a connect: an error number of 0 is an answer, a late one is
/// unknown, and a call that a signal stopped gives nothing yet.
pub proof fn law_the_end_of_a_connect(poll: PollAnswer, codes: &Errors, r: Option<SocketAnswer>)
    requires
        call_ensures(finish_by, (poll, codes), r),
    ensures
        (r is Some && r->0 is Answers) <==> poll == PollAnswer::Ready(0),
        poll is Late || poll is Unread ==> r == Some(SocketAnswer::Unknown),
        r is None <==> poll == PollAnswer::Fault(Some(codes.intr)) || (poll is Ready && poll
            != PollAnswer::Ready(0) && (poll == PollAnswer::Ready(codes.again) || poll
            == PollAnswer::Ready(codes.intr))),
{
}

/// One connect: a connection is an answer, a connect that continues is waited
/// for, and one that would block or that a signal stopped is made again.
pub proof fn law_one_connect(call: ConnectCall, codes: &Errors, r: Attempt)
    requires
        call_ensures(attempt_by, (call, codes), r),
        codes.again != codes.inprogress && codes.intr != codes.inprogress,
    ensures
        r == Attempt::Answer(SocketAnswer::Answers) <==> call is Connected,
        r is Wait <==> call == ConnectCall::Fault(Some(codes.inprogress)),
        r is Again <==> call == ConnectCall::Fault(Some(codes.again)) || call == ConnectCall::Fault(
            Some(codes.intr),
        ),
        call is NoSocket ==> r == Attempt::Answer(SocketAnswer::Unknown),
{
}

/// The question to a socket ends with the answer of the connect. A missing file
/// answers it at once, and a path that cannot be looked at or the end of the time
/// leaves it open.
pub proof fn law_what_a_socket_answers(
    look: Look,
    attempt: Option<SocketAnswer>,
    late: bool,
    blocking: bool,
    asked_r: Option<SocketAnswer>,
    connect_r: Option<Connected>,
)
    requires
        call_ensures(ask_socket, (look, attempt, late), asked_r),
        call_ensures(connect_within, (look, attempt, blocking, late), connect_r),
    ensures
        look is NotFound ==> asked_r == Some(SocketAnswer::NobodyListens) && connect_r == Some(
            Connected::NobodyListens,
        ),
        look is Fault || look is TooLong ==> asked_r == Some(SocketAnswer::Unknown) && connect_r
            == Some(Connected::NoAnswer),
        look is Address && attempt is Some ==> asked_r == attempt,
        look is Address && attempt is None ==> (asked_r is None <==> !late) && (connect_r is None
            <==> !late),
        (connect_r is Some && connect_r->0 is Open) <==> look is Address && attempt == Some(
            SocketAnswer::Answers,
        ) && blocking,
        (connect_r is Some && connect_r->0 is NobodyListens) <==> look is NotFound || (
        look is Address && attempt == Some(SocketAnswer::NobodyListens)),
{
}

/// A sweep asks for a directory exactly where there is time, its name is that of
/// a short directory of the user, it is a directory of the user, and it is none
/// of the directories in use.
pub proof fn law_which_directories_a_sweep_asks_for(
    elapsed: u64,
    limit: u64,
    name: &str,
    path: &str,
    own: &Vec<String>,
    found: Found,
    uid: u32,
    r: Sweep,
)
    requires
        call_ensures(sweep_socket_dirs, (elapsed, limit, name, path, own, found, uid), r),
    ensures
        r is Stop <==> elapsed >= limit,
        r is Claim <==> elapsed < limit && text::begins(
            name@,
            "qex-"@ + text::digits(uid as nat) + "-"@,
        ) && found == (Found::Entry { is_dir: true, owner: uid }) && forall|i: int|
            0 <= i < own@.len() ==> !paths::one_path(#[trigger] own@[i]@, path@),
{
}

/// A directory goes only where its lock could be taken and nobody listens at its
/// socket.
pub proof fn law_which_directories_go(
    open: &OpenFile,
    lock: &LockTry,
    answer: SocketAnswer,
    r: bool,
)
    requires
        call_ensures(claim_unused_dir, (open, lock, answer), r),
    ensures
        r <==> *open is Opened && *lock is Taken && answer is NobodyListens,
{
}

/// The system marks a program file that is gone. Without the mark it is the path
/// that the file had, and a path with no mark has none to take off.
pub proof fn law_the_mark_of_a_deleted_program(exe: &str, path: Seq<char>, r: Option<String>)
    requires
        call_ensures(without_mark, (exe,), r),
    ensures
        exe@ == path + " (deleted)"@ ==> r is Some && r->0@ == path,
        r is Some ==> exe@ == r->0@ + " (deleted)"@,
{
    let n = exe@.len() - DELETED@.len();
    if exe@ == path + " (deleted)"@ {
        assert(exe@.skip(n) == DELETED@);
        assert(exe@.take(n) == path);
    }
    if r is Some {
        assert(exe@.take(n) + exe@.skip(n) == exe@);
    }
}

/// qex starts its own program again from the file that is there: the path of the
/// process, or that path without the mark of a deleted file.
pub proof fn law_which_program_starts_again(
    exe: &str,
    present: bool,
    stripped_present: bool,
    path: Seq<char>,
    r: Result<String, String>,
)
    requires
        call_ensures(program_path, (exe, present, stripped_present), r),
    ensures
        present ==> r is Ok && r->Ok_0@ == exe@,
        !present && exe@ == path + " (deleted)"@ ==> (r is Ok <==> stripped_present) && (r is Ok
            ==> r->Ok_0@ == path),
        !present && !text::finishes(exe@, " (deleted)"@) ==> r is Err,
{
    let n = exe@.len() - DELETED@.len();
    if exe@ == path + " (deleted)"@ {
        assert(exe@.skip(n) == DELETED@);
        assert(exe@.take(n) == path);
    }
    if n >= 0 && exe@.skip(n) == DELETED@ {
        assert(exe@.subrange(n, n + DELETED@.len()) == DELETED@);
    }
}

/// An address has room for the bytes of its path and one more, and only a
/// program file that was looked at and is not there counts as changed.
pub proof fn law_addresses_and_program_files(
    path: &str,
    space: usize,
    fits_in: bool,
    present: Option<bool>,
    changed: bool,
)
    requires
        call_ensures(unix_address, (path, space), fits_in),
        call_ensures(program_file_changed, (present,), changed),
    ensures
        fits_in <==> paths::bytes_of(path@).len() + 1 <= space,
        changed <==> present == Some(false),
{
}

/// One step of a try for the pid file: it sleeps while another process has the
/// lock and there is time, gives up when there is none, starts over with the next
/// attempt where the file lost its name, and holds the file once it is written.
pub proof fn law_one_step_of_a_try(lock: &mut PidFileLock, event: PidEvent, r: PidHold)
    requires
        old(lock).wf(),
        fits(old(lock).phase, event),
        call_ensures(PidFileLock::next, (lock, event), r),
    ensures
        final(lock).path@ == old(lock).path@,
        event is Lock && event->lock is Held && !event->late ==> r is Sleep && final(lock).phase
            == Phase::Locking && final(lock).attempt == old(lock).attempt,
        event is Lock && event->lock is Held && event->late ==> r is Busy,
        event is Lock && event->lock is Taken ==> r is Look && final(lock).phase == Phase::Looking
            && final(lock).attempt == old(lock).attempt,
        event == PidEvent::Links(Some(0u64)) && old(lock).attempt < 5 ==> r is Open && final(lock).phase == Phase::Opening && final(lock).attempt == old(lock).attempt + 1,
        event == PidEvent::Links(Some(0u64)) && old(lock).attempt == 5 ==> r is Unusable,
        event is Links && event != PidEvent::Links(Some(0u64)) ==> r is Write && final(lock).phase
            == Phase::Writing,
        event == PidEvent::Write(None::<String>) <==> r is Held,
{
}

/// The pid file stands beside the socket.
pub proof fn law_where_the_pid_file_is(socket: &str, r: Result<PidFileLock, String>)
    requires
        call_ensures(hold_pid_file, (socket,), r),
    ensures
        r is Ok <==> paths::parent_of(socket@) is Some,
        r is Ok ==> r->Ok_0.path@ == paths::joined(paths::parent_of(socket@)->0, "pid"@)
            && r->Ok_0.phase == Phase::Opening && r->Ok_0.attempt == 1,
{
}

} // verus!

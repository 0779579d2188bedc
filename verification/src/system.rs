//! The numbers that the system gives to signals and to errors.
//!
//! Most of these numbers differ between the systems that qex operates on, so
//! every rule that reads one takes the table as an argument.

use vstd::prelude::*;

verus! {

/// The numbers of the signals that a user can name.
#[derive(Debug, Clone, Copy, PartialEq, Eq, Structural)]
pub struct Signals {
    pub term: i32,
    pub kill: i32,
    pub interrupt: i32,
    pub hup: i32,
    pub quit: i32,
    pub usr1: i32,
    pub usr2: i32,
}

/// The numbers of the errors that change a decision.
#[derive(Debug, Clone, Copy, PartialEq, Eq, Structural)]
pub struct Errors {
    /// There is no such process.
    pub srch: i32,
    /// There is no such file.
    pub noent: i32,
    /// A signal stopped the call.
    pub intr: i32,
    /// The call would block.
    pub again: i32,
    /// The connect continues.
    pub inprogress: i32,
    /// The connection was refused.
    pub connrefused: i32,
    /// The file is not a socket.
    pub notsock: i32,
}

/// The table is the one of a system that qex operates on: Linux, Linux on MIPS,
/// or Linux on SPARC and macOS, in this order.
pub open spec fn known_signals(s: Signals) -> bool {
    &&& s.term == 15
    &&& s.kill == 9
    &&& s.interrupt == 2
    &&& s.hup == 1
    &&& s.quit == 3
    &&& {
        ||| s.usr1 == 10 && s.usr2 == 12
        ||| s.usr1 == 16 && s.usr2 == 17
        ||| s.usr1 == 30 && s.usr2 == 31
    }
}

/// The table is the one of a system that qex operates on: Linux, Linux on MIPS,
/// Linux on SPARC, or macOS, in this order.
pub open spec fn known_errors(e: Errors) -> bool {
    &&& e.srch == 3
    &&& e.noent == 2
    &&& e.intr == 4
    &&& {
        ||| e.again == 11 && e.inprogress == 115 && e.connrefused == 111 && e.notsock == 88
        ||| e.again == 11 && e.inprogress == 150 && e.connrefused == 146 && e.notsock == 95
        ||| e.again == 11 && e.inprogress == 36 && e.connrefused == 61 && e.notsock == 38
        ||| e.again == 35 && e.inprogress == 36 && e.connrefused == 61 && e.notsock == 38
    }
}

/// The constants `SIGTERM`, `SIGKILL`, `SIGINT`, `SIGHUP`, `SIGQUIT`, `SIGUSR1`
/// and `SIGUSR2` of `libc`. The first five have one number on Linux and on
/// macOS. The last two are one of the pairs that `libc` gives for the machines
/// of these systems.
#[verifier::external_body]
pub(crate) fn signals() -> (r: Signals)
    ensures
        known_signals(r),
{
    Signals {
        term: libc::SIGTERM,
        kill: libc::SIGKILL,
        interrupt: libc::SIGINT,
        hup: libc::SIGHUP,
        quit: libc::SIGQUIT,
        usr1: libc::SIGUSR1,
        usr2: libc::SIGUSR2,
    }
}

/// The constants `ESRCH`, `ENOENT`, `EINTR`, `EAGAIN`, `EINPROGRESS`,
/// `ECONNREFUSED` and `ENOTSOCK` of `libc`. The first three have one number on
/// Linux and on macOS. The last four are one of the tables that `libc` gives for
/// the machines of these systems.
#[verifier::external_body]
pub(crate) fn errors() -> (r: Errors)
    ensures
        known_errors(r),
{
    Errors {
        srch: libc::ESRCH,
        noent: libc::ENOENT,
        intr: libc::EINTR,
        again: libc::EAGAIN,
        inprogress: libc::EINPROGRESS,
        connrefused: libc::ECONNREFUSED,
        notsock: libc::ENOTSOCK,
    }
}

} // verus!

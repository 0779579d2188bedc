//! The words for a pause.
//!
//! Every command that shows a pause takes its lines from here, so no two of
//! them disagree. No line holds a process id: a reader takes such a number for
//! a number of its own machine.

use crate::job;
use crate::pause::{Paused, PauseRecord};
use crate::pause_view::{ChainEntry, IssuerState, PauseView, Relation};
use crate::stamp;
use crate::text;
use crate::units;
use vstd::prelude::*;
use vstd::string::*;

verus! {

/// The thing that a request pauses, for the words of a command.
#[derive(Debug, Clone, Copy)]
pub enum Target<'a> {
    Queue,
    Lock(&'a str),
}

/// The guarded command that ends one request.
pub open spec fn command_text(target: Target<'_>, id: Seq<char>) -> Seq<char> {
    match target {
        Target::Queue => "qex resume queue --pause "@ + id,
        Target::Lock(name) => "qex resume lock "@ + job::safe(name@) + " --pause "@ + id,
    }
}

/// Gives the guarded command that ends ONE request.
pub fn guarded_command(target: Target<'_>, id: &str) -> (r: String)
    ensures
        r@ == command_text(target, id@),
{
    match target {
        Target::Queue => {
            let mut out = text::owned("qex resume queue --pause ");
            out.append(id);
            out
        },
        Target::Lock(name) => {
            let mut out = text::owned("qex resume lock ");
            out.append(shown_lock(name).as_str());
            out.append(" --pause ");
            out.append(id);
            out
        },
    }
}

/// Gives the refusal for a resume that names an id of a DIFFERENT target.
/// `home` is the lock that the request stands for, or `None` for the queue.
///
/// The command is there for every reader: the person who typed the id holds
/// it, and the guarded command is the only one that qex ever prints.
pub fn stands_elsewhere(id: &str, home: Option<&str>) -> (r: String)
    ensures
        r@ == "pause "@ + job::safe(id@) + " stands for "@ + (match home {
            None => "the queue"@,
            Some(name) => "the lock `"@ + job::safe(name@) + "`"@,
        })
            + ", and not for the target of this command. qex resumed nothing, and the request still stands. To end it: `"@
            + command_text(
            match home {
                None => Target::Queue,
                Some(name) => Target::Lock(name),
            },
            job::safe(id@),
        ) + "`"@,
{
    let id = job::safe_name(id);
    let (place, target) = match home {
        None => (text::owned("the queue"), Target::Queue),
        Some(name) => {
            let mut place = text::owned("the lock `");
            place.append(shown_lock(name).as_str());
            place.append("`");
            (place, Target::Lock(name))
        },
    };
    let mut out = text::owned("pause ");
    out.append(id.as_str());
    out.append(" stands for ");
    out.append(place.as_str());
    out.append(
        ", and not for the target of this command. qex resumed nothing, and the request still stands. To end it: `",
    );
    out.append(guarded_command(target, id.as_str()).as_str());
    out.append("`");
    out
}

/// True when a reader may be given a command that is ready to run: for a
/// request of the reader's own session, for a request of a session that is
/// gone, and for a request that qex made because of a fault.
pub open spec fn advised(v: PauseView) -> bool {
    v.pause_id@.len() > 0 && (v.fault || v.issuer_session_state is Gone || (
    v.issuer_session_state is Running && v.issuer_is_this_session is Yes))
}

/// The command that resumes one request, where the rules allow one.
pub open spec fn resume_text(v: PauseView, target: Target<'_>) -> Option<Seq<char>> {
    if advised(v) {
        Some(command_text(target, v.pause_id@))
    } else {
        None
    }
}

/// Gives the command that resumes ONE request, or `None` when the rules for
/// the advice allow no command.
///
/// THE RULES. qex prints a command that is ready to run ONLY for a request of
/// the session of the reader, and for a request of a session that is gone. It
/// never prints one for a different session that still runs, and never for
/// `Unknown`, which must not read more permissively than `Running`. The
/// command is always the guarded one. The text and the JSON both take their
/// answer from this function, so they cannot disagree.
///
/// A request that qex made because it could not read the file is the request
/// of nobody. The command is the remedy, so qex prints it.
pub fn resume_command(view: &PauseView, target: Target<'_>) -> (r: Option<String>)
    ensures
        text::opt_view(r) == resume_text(*view, target),
{
    // A coordinator of an earlier version gives no id, so no guarded command
    // exists.
    if view.pause_id.as_str().is_empty() {
        return None;
    }
    let allowed = view.fault || match (view.issuer_session_state, view.issuer_is_this_session) {
        (IssuerState::Unknown, _) => false,
        (IssuerState::Gone, _) => true,
        (IssuerState::Running, Relation::Yes) => true,
        (IssuerState::Running, _) => false,
    };
    if allowed {
        Some(guarded_command(target, view.pause_id.as_str()))
    } else {
        None
    }
}

/// What is unknown is treated as what still runs, and never as less: a reader
/// of a view that says `Unknown` gets no command that the reader of the same
/// view would not get if it said `Running`, whatever the relation is.
pub proof fn law_unknown_is_never_more_permissive(v: PauseView, w: PauseView, target: Target<'_>)
    requires
        v.issuer_session_state is Unknown,
        w == (PauseView {
            issuer_session_state: IssuerState::Running,
            issuer_is_this_session: w.issuer_is_this_session,
            ..v
        }),
    ensures
        resume_text(v, target) is Some ==> resume_text(v, target) == resume_text(w, target),
        !v.fault ==> resume_text(v, target) is None,
{
}

/// The one exception that each "do not resume" sentence names beside the user:
/// the holder of the id.
pub const DO_NOT_RESUME: &'static str =
    "Do not resume it unless you hold this id from your own `pause` answer or your user tells you to.";

/// How long ago a moment was.
pub open spec fn ago_text(then: nat, now: nat) -> Seq<char> {
    units::duration_text(
        if now < then {
            0
        } else {
            (now - then) as nat
        },
    ) + " ago"@
}

/// Writes how long ago a moment was.
pub fn ago(then: u64, now: u64) -> (r: String)
    ensures
        r@ == ago_text(then as nat, now as nat),
{
    let mut out = units::format_duration(
        if now < then {
            0
        } else {
            now - then
        },
    );
    out.append(" ago");
    out
}

/// When a request ends.
pub open spec fn until_text(until: Option<u64>, now: nat) -> Seq<char> {
    match until {
        Some(end) => "until "@ + stamp::near_stamp(end as nat, now) + " (in "@
            + units::duration_text(
            if end < now {
                0
            } else {
                (end - now) as nat
            },
        ) + ")"@,
        None => "until somebody resumes it"@,
    }
}

/// Writes when a request ends.
pub fn end_text(until: Option<u64>, now: u64) -> (r: String)
    ensures
        r@ == until_text(until, now as nat),
{
    match until {
        Some(end) => {
            let mut out = text::owned("until ");
            out.append(stamp::near_stamp_text(end, now).as_str());
            out.append(" (in ");
            out.append(
                units::format_duration(
                    if end < now {
                        0
                    } else {
                        end - now
                    },
                ).as_str(),
            );
            out.append(")");
            out
        },
        None => text::owned("until somebody resumes it"),
    }
}

/// The session that made a request, in words.
pub open spec fn from_text(v: PauseView) -> Option<Seq<char>> {
    let program = match v.issuer_program {
        Some(p) => job::safe(p@),
        None => "unknown"@,
    };
    match (v.issuer_session_state, v.issuer_is_this_session) {
        (IssuerState::Unknown, _) => None,
        (IssuerState::Running, Relation::Yes) => Some(
            "from THIS session ("@ + program + ", still running)"@,
        ),
        (IssuerState::Running, Relation::No) => Some(
            "from another session that is still running ("@ + program + ")"@,
        ),
        (IssuerState::Running, Relation::Unknown) => Some(
            "from a session that is still running ("@ + program + ")"@,
        ),
        (IssuerState::Gone, _) => Some("from a session that is gone ("@ + program + ")"@),
    }
}

fn from_words(view: &PauseView) -> (r: Option<String>)
    ensures
        text::opt_view(r) == from_text(*view),
{
    let program = match &view.issuer_program {
        Some(p) => job::safe_name(p.as_str()),
        None => text::owned("unknown"),
    };
    let (first, last) = match (view.issuer_session_state, view.issuer_is_this_session) {
        (IssuerState::Unknown, _) => {
            return None;
        },
        (IssuerState::Running, Relation::Yes) => ("from THIS session (", ", still running)"),
        (IssuerState::Running, Relation::No) => (
            "from another session that is still running (",
            ")",
        ),
        (IssuerState::Running, Relation::Unknown) => (
            "from a session that is still running (",
            ")",
        ),
        (IssuerState::Gone, _) => ("from a session that is gone (", ")"),
    };
    let mut out = text::owned(first);
    out.append(program.as_str());
    out.append(last);
    Some(out)
}

/// The facts of one request: its id, its age, its end, the session that made
/// it, and its reason.
pub open spec fn head_text(v: PauseView, now: nat) -> Seq<char> {
    let name = if v.pause_id@.len() == 0 {
        "a pause with no id (this coordinator is an earlier version)"@
    } else {
        "pause "@ + v.pause_id@
    };
    let facts = name + ", made "@ + stamp::near_stamp(v.made_at as nat, now) + " ("@ + ago_text(
        v.made_at as nat,
        now,
    ) + "), "@ + until_text(v.until, now);
    let from = match from_text(v) {
        Some(t) => facts + ", "@ + t,
        None => facts,
    };
    match v.reason {
        Some(reason) => from + ", reason: "@ + job::printable_of(reason@) + "."@,
        None => from + ", no reason given."@,
    }
}

/// Gives the facts of one request with no advice. A report of a request that a
/// resume ended uses this form, because advice about a request that no longer
/// stands has no reader.
pub fn request_head(view: &PauseView, now: u64) -> (r: String)
    ensures
        r@ == head_text(*view, now as nat),
{
    let mut out = if view.pause_id.as_str().is_empty() {
        // A coordinator of an earlier version holds one record with no id.
        text::owned("a pause with no id (this coordinator is an earlier version)")
    } else {
        let mut name = text::owned("pause ");
        name.append(view.pause_id.as_str());
        name
    };
    out.append(", made ");
    out.append(stamp::near_stamp_text(view.made_at, now).as_str());
    out.append(" (");
    out.append(ago(view.made_at, now).as_str());
    out.append("), ");
    out.append(end_text(view.until, now).as_str());
    if let Some(from) = from_words(view) {
        out.append(", ");
        out.append(from.as_str());
    }
    match &view.reason {
        Some(reason) => {
            out.append(", reason: ");
            out.append(shown_reason(reason.as_str()).as_str());
            out.append(".");
        },
        None => {
            out.append(", no reason given.");
        },
    }
    out
}

/// The sentence of advice about a standing request.
pub open spec fn advice_text(v: PauseView, target: Target<'_>, now: nat) -> Seq<char> {
    let command = resume_text(v, target);
    match v.issuer_session_state {
        IssuerState::Unknown => if v.pause_id@.len() == 0 {
            "qex cannot tell which session set it or whether that session is still there, so treat it as still there. Do not resume it unless your user tells you to."@
        } else {
            "qex cannot tell which session set it or whether that session is still there, so treat it as still there. "@
                + DO_NOT_RESUME@
        },
        IssuerState::Running => match command {
            Some(command) =>
                "If a request of yours (not of a sibling agent) set it and its work is done: "@
                + command,
            None => "That session can resume it. "@ + DO_NOT_RESUME@,
        },
        IssuerState::Gone => {
            let first = match v.until {
                Some(end) => "It ends by itself at "@ + stamp::near_stamp(end as nat, now)
                    + ", so waiting is the default."@,
                None =>
                    "It still stands, and the processes of the session that set it have exited, so expect nobody to resume it."@,
            };
            first + " Ask your user, or resume it if the reason no longer applies: "@ + (
            match command {
                Some(command) => command,
                None => ""@,
            })
        },
    }
}

/// The line of one standing request.
pub open spec fn line_text(v: PauseView, target: Target<'_>, now: nat) -> Seq<char> {
    if v.fault {
        let fault = match v.reason {
            Some(reason) => job::printable_of(reason@),
            None => "unknown"@,
        };
        let remedy = match resume_text(v, target) {
            Some(command) => "Correct that file, or write a new one: "@ + command,
            None => "Correct that file."@,
        };
        "pause "@ + v.pause_id@
            + ": PAUSED BY A FAULT. qex could not read its pause record, and a record that qex cannot read can hold a pause, so qex holds the queue. The fault: "@
            + fault + ". "@ + remedy
    } else {
        head_text(v, now) + " "@ + advice_text(v, target, now)
    }
}

fn advice(view: &PauseView, target: Target<'_>, now: u64) -> (r: String)
    ensures
        r@ == advice_text(*view, target, now as nat),
{
    let command = resume_command(view, target);
    match view.issuer_session_state {
        IssuerState::Unknown => {
            if view.pause_id.as_str().is_empty() {
                text::owned(
                    "qex cannot tell which session set it or whether that session is still there, so treat it as still there. Do not resume it unless your user tells you to.",
                )
            } else {
                let mut out = text::owned(
                    "qex cannot tell which session set it or whether that session is still there, so treat it as still there. ",
                );
                out.append(DO_NOT_RESUME);
                out
            }
        },
        IssuerState::Running => match command {
            Some(command) => {
                let mut out = text::owned(
                    "If a request of yours (not of a sibling agent) set it and its work is done: ",
                );
                out.append(command.as_str());
                out
            },
            None => {
                let mut out = text::owned("That session can resume it. ");
                out.append(DO_NOT_RESUME);
                out
            },
        },
        IssuerState::Gone => {
            let mut out = match view.until {
                Some(end) => {
                    let mut first = text::owned("It ends by itself at ");
                    first.append(stamp::near_stamp_text(end, now).as_str());
                    first.append(", so waiting is the default.");
                    first
                },
                None => text::owned(
                    "It still stands, and the processes of the session that set it have exited, so expect nobody to resume it.",
                ),
            };
            out.append(" Ask your user, or resume it if the reason no longer applies: ");
            match command {
                Some(command) => out.append(command.as_str()),
                None => out.append(""),
            }
            out
        },
    }
}

/// Gives the line of ONE standing request: its id, its age, its end, the
/// session that made it, its reason, and one sentence of advice.
///
/// The line holds no process id. See `PauseRecord::by_pid`.
pub fn request_line(view: &PauseView, target: Target<'_>, now: u64) -> (r: String)
    ensures
        r@ == line_text(*view, target, now as nat),
{
    if view.fault {
        let fault = match &view.reason {
            Some(reason) => shown_reason(reason.as_str()),
            None => text::owned("unknown"),
        };
        let remedy = match resume_command(view, target) {
            Some(command) => {
                let mut out = text::owned("Correct that file, or write a new one: ");
                out.append(command.as_str());
                out
            },
            None => text::owned("Correct that file."),
        };
        let mut out = text::owned("pause ");
        out.append(view.pause_id.as_str());
        out.append(
            ": PAUSED BY A FAULT. qex could not read its pause record, and a record that qex cannot read can hold a pause, so qex holds the queue. The fault: ",
        );
        out.append(fault.as_str());
        out.append(". ");
        out.append(remedy.as_str());
        return out;
    }
    let mut out = request_head(view, now);
    out.append(" ");
    out.append(advice(view, target, now).as_str());
    out
}

/// A line about a request does not depend on a process id: not on the number
/// that the caller reported, and not on the chain of the issuer.
pub proof fn law_no_line_holds_a_process_id(v: PauseView, w: PauseView, target: Target<'_>, now: nat)
    requires
        w == (PauseView {
            caller_reported_pid: w.caller_reported_pid,
            issuer_chain: w.issuer_chain,
            ..v
        }),
    ensures
        line_text(v, target, now) == line_text(w, target, now),
        head_text(v, now) == head_text(w, now),
{
}

/// The latest end of the first `n` views, or none where one of them has no
/// end.
pub open spec fn set_end(list: Seq<PauseView>, n: nat) -> Option<u64>
    decreases n,
{
    if n == 0 {
        None
    } else if n == 1 {
        list[0].until
    } else {
        match (set_end(list, (n - 1) as nat), list[n - 1].until) {
            (Some(a), Some(b)) => Some(
                if b > a {
                    b
                } else {
                    a
                },
            ),
            _ => None,
        }
    }
}

/// Gives the latest end of a set, or `None` when one request has no end.
pub fn last_end(views: &[PauseView]) -> (r: Option<u64>)
    ensures
        r == set_end(views@, views@.len()),
{
    if views.len() == 0 {
        return None;
    }
    let mut end: Option<u64> = views[0].until;
    let mut i: usize = 1;
    proof {
        reveal_with_fuel(set_end, 2);
    }
    while i < views.len()
        invariant
            1 <= i <= views@.len(),
            end == set_end(views@, i as nat),
        decreases views@.len() - i,
    {
        end = match (end, views[i].until) {
            (Some(a), Some(b)) => Some(
                if b > a {
                    b
                } else {
                    a
                },
            ),
            _ => None,
        };
        i += 1;
    }
    end
}

/// A set has an end exactly when it is not empty and each of its requests has
/// one, and that end is the latest of them.
pub proof fn law_set_end(list: Seq<PauseView>, n: nat)
    requires
        n <= list.len(),
    ensures
        set_end(list, n) is Some <==> n > 0 && forall|i: int|
            0 <= i < n ==> (#[trigger] list[i]).until is Some,
        set_end(list, n) matches Some(end) ==> (forall|i: int|
            0 <= i < n ==> (#[trigger] list[i]).until->0 <= end) && exists|i: int|
            0 <= i < n && (#[trigger] list[i]).until == Some(end),
    decreases n,
{
    if n == 1 {
        if set_end(list, n) is Some {
            assert(list[0].until == set_end(list, n));
        }
    } else if n > 1 {
        law_set_end(list, (n - 1) as nat);
        if set_end(list, n) is Some {
            let a = set_end(list, (n - 1) as nat);
            assert(a is Some);
            if list[n - 1].until->0 > a->0 {
                assert(list[n - 1].until == set_end(list, n));
            } else {
                let k = choose|k: int| 0 <= k < n - 1 && (#[trigger] list[k]).until == a;
                assert(list[k].until == set_end(list, n));
            }
        }
    }
}

/// How many requests stand, and when the target is free of them.
pub open spec fn standing_words(list: Seq<PauseView>, again: Seq<char>, now: nat) -> Seq<char> {
    let end = until_text(set_end(list, list.len()), now);
    if list.len() == 1 {
        "1 request stands; "@ + again + " when that request ends (its end is: "@ + end + ")"@
    } else {
        text::digits(list.len()) + " requests stand; "@ + again
            + " when all of them end (the last end is: "@ + end + ")"@
    }
}

/// Gives the words "N requests stand; it runs again when ..." for a set.
///
/// `again` says what the target does after that: "it runs again", or "it is
/// free again".
pub fn standing_text(views: &[PauseView], again: &str, now: u64) -> (r: String)
    ensures
        r@ == standing_words(views@, again@, now as nat),
{
    let end = end_text(last_end(views), now);
    if views.len() == 1 {
        let mut out = text::owned("1 request stands; ");
        out.append(again);
        out.append(" when that request ends (its end is: ");
        out.append(end.as_str());
        out.append(")");
        out
    } else {
        let mut out = text::decimal(views.len() as u64);
        out.append(" requests stand; ");
        out.append(again);
        out.append(" when all of them end (the last end is: ");
        out.append(end.as_str());
        out.append(")");
        out
    }
}

/// Gives the form of a `--reason` that a terminal may print.
///
/// The reason is text that a person or an agent typed, and it stands in a
/// sentence. The record on the disk keeps the text that the person gave.
pub fn shown_reason(reason: &str) -> (r: String)
    ensures
        r@ == job::printable_of(reason@),
{
    job::printable(reason)
}

/// Gives the form of a lock name that a terminal may print. A lock name is a
/// NAME, and not a sentence.
pub fn shown_lock(name: &str) -> (r: String)
    ensures
        r@ == job::safe(name@),
{
    job::safe_name(name)
}

/// True when the word names the stored lock.
pub open spec fn names_lock(stored: Seq<char>, word: Seq<char>) -> bool {
    stored == word || job::safe(stored) == word
}

/// True when a word names this stored lock.
///
/// qex shows the safe form, so a word that a reader copies from `qex status`
/// must find the lock that the job holds.
pub fn lock_matches(stored: &str, word: &str) -> (r: bool)
    ensures
        r == names_lock(stored@, word@),
{
    text::same(stored, word) || text::same(job::safe_name(stored).as_str(), word)
}

/// True when two lock words name the same lock.
///
/// A pause that a person took under the shown form must still hold a job that
/// asked for the stored form.
pub fn lock_same(a: &str, b: &str) -> (r: bool)
    ensures
        r == (a@ == b@ || job::safe(a@) == job::safe(b@)),
{
    text::same(a, b) || text::same(job::safe_name(a).as_str(), job::safe_name(b).as_str())
}

/// A word that a reader copies from the output names the lock that the output
/// showed, and it names the same lock as the stored name.
pub proof fn law_the_shown_name_finds_the_lock(stored: Seq<char>)
    ensures
        names_lock(stored, job::safe(stored)),
        job::safe(job::safe(stored)) == job::safe(stored),
{
    job::law_safe_name(stored);
}

/// The list with one more name at its place in the order, where it does not
/// hold the name.
pub open spec fn with_name(list: Seq<Seq<char>>, name: Seq<char>) -> Seq<Seq<char>>
    decreases list.len(),
{
    if list.len() == 0 {
        seq![name]
    } else if list[0] == name {
        list
    } else if text::before(name, list[0]) {
        seq![name] + list
    } else {
        seq![list[0]] + with_name(list.skip(1), name)
    }
}

/// The known locks that a word names, in order, each of them one time.
pub open spec fn hits(known: Seq<&str>, word: Seq<char>) -> Seq<Seq<char>>
    decreases known.len(),
{
    if known.len() == 0 {
        Seq::empty()
    } else {
        let before = hits(known.drop_last(), word);
        if names_lock(known.last()@, word) {
            with_name(before, known.last()@)
        } else {
            before
        }
    }
}

proof fn lemma_with_name(list: Seq<Seq<char>>, name: Seq<char>)
    ensures
        forall|x: Seq<char>| #[trigger]
            with_name(list, name).contains(x) <==> list.contains(x) || x == name,
    decreases list.len(),
{
    let all = with_name(list, name);
    if list.len() == 0 {
        assert(all[0] == name);
    } else if list[0] == name {
    } else if text::before(name, list[0]) {
        assert(all[0] == name);
        assert forall|x: Seq<char>| list.contains(x) implies #[trigger] all.contains(x) by {
            let k = choose|k: int| 0 <= k < list.len() && list[k] == x;
            assert(all[k + 1] == x);
        }
        assert forall|x: Seq<char>| #[trigger] all.contains(x) implies list.contains(x) || x
            == name by {
            let k = choose|k: int| 0 <= k < all.len() && all[k] == x;
            if k > 0 {
                assert(list[k - 1] == x);
            }
        }
    } else {
        let rest = with_name(list.skip(1), name);
        lemma_with_name(list.skip(1), name);
        assert forall|x: Seq<char>| list.contains(x) || x == name implies #[trigger] all.contains(
            x,
        ) by {
            if x == list[0] {
                assert(all[0] == x);
            } else {
                if list.contains(x) {
                    let k = choose|k: int| 0 <= k < list.len() && list[k] == x;
                    assert(list.skip(1)[k - 1] == x);
                }
                assert(rest.contains(x));
                let k = choose|k: int| 0 <= k < rest.len() && rest[k] == x;
                assert(all[k + 1] == x);
            }
        }
        assert forall|x: Seq<char>| #[trigger] all.contains(x) implies list.contains(x) || x
            == name by {
            let k = choose|k: int| 0 <= k < all.len() && all[k] == x;
            if k > 0 {
                assert(rest[k - 1] == x);
                assert(rest.contains(x));
                if list.skip(1).contains(x) {
                    let q = choose|q: int| 0 <= q < list.skip(1).len() && list.skip(1)[q] == x;
                    assert(list[q + 1] == x);
                }
            } else {
                assert(list[0] == x);
            }
        }
    }
}

/// The list of the locks that a word names holds exactly the known locks that
/// it names.
pub proof fn law_hits(known: Seq<&str>, word: Seq<char>, name: Seq<char>)
    ensures
        hits(known, word).contains(name) <==> names_lock(name, word) && exists|i: int|
            0 <= i < known.len() && (#[trigger] known[i])@ == name,
    decreases known.len(),
{
    if known.len() > 0 {
        let less = known.drop_last();
        law_hits(less, word, name);
        lemma_with_name(hits(less, word), known.last()@);
        assert(known[known.len() - 1]@ == known.last()@);
        if exists|i: int| 0 <= i < less.len() && (#[trigger] less[i])@ == name {
            let k = choose|k: int| 0 <= k < less.len() && (#[trigger] less[k])@ == name;
            assert(known[k]@ == name);
        }
        if exists|i: int| 0 <= i < known.len() && (#[trigger] known[i])@ == name {
            let k = choose|k: int| 0 <= k < known.len() && (#[trigger] known[k])@ == name;
            if k < less.len() {
                assert(less[k]@ == name);
            }
        }
    }
}

/// The names of a list as lines, each of them in a form in which a reader sees
/// each of its characters.
pub open spec fn choices(list: Seq<Seq<char>>) -> Seq<Seq<char>> {
    list.map_values(|n: Seq<char>| "  "@ + job::visible_of(n))
}

/// The stored lock name that a word names, or the message that qex cannot
/// choose.
pub open spec fn resolved(known: Seq<&str>, word: Seq<char>) -> Result<Seq<char>, Seq<char>> {
    let found = hits(known, word);
    if found.len() == 0 {
        Ok(word)
    } else if found.len() == 1 {
        Ok(found[0])
    } else {
        Err(
            "`"@ + job::visible_of(word) + "` names "@ + text::digits(found.len())
                + " locks.\n\nTwo lock names give one safe form. qex cannot choose.\n\nUse one of these names:\n"@
                + text::joined(choices(found), "\n"@),
        )
    }
}

/// Puts one more name at its place in the order, where the list does not hold
/// the name.
fn add_name(list: &mut Vec<String>, name: &str)
    ensures
        text::views(final(list)@) == with_name(text::views(old(list)@), name@),
{
    let ghost all = text::views(list@);
    let mut i: usize = 0;
    assert(all.skip(0) == all);
    assert(all.take(0) + with_name(all.skip(0), name@) == with_name(all, name@));
    while i < list.len()
        invariant
            i <= list@.len(),
            text::views(list@) == all,
            *list == *old(list),
            all.take(i as int) + with_name(all.skip(i as int), name@) == with_name(all, name@),
        decreases list@.len() - i,
    {
        assert(all[i as int] == list@[i as int]@);
        assert(all.skip(i as int)[0] == all[i as int]);
        if text::same(list[i].as_str(), name) {
            assert(all.take(i as int) + all.skip(i as int) == all);
            return ;
        }
        if text::is_before(name, list[i].as_str()) {
            list.insert(i, text::owned(name));
            assert(text::views(list@) == all.take(i as int) + (seq![name@] + all.skip(i as int)));
            return ;
        }
        assert(all.skip(i as int).skip(1) == all.skip(i + 1));
        assert(all.take(i as int) + (seq![all[i as int]] + with_name(all.skip(i + 1), name@))
            == all.take(i + 1) + with_name(all.skip(i + 1), name@));
        i += 1;
    }
    list.push(text::owned(name));
    assert(text::views(list@) == all.take(all.len() as int) + seq![name@]);
}

/// Gives the stored lock name that a word names.
///
/// When no known lock matches, the word is a new lock that the person is
/// taking. When two stored names give one safe form, qex cannot choose.
pub fn resolve_lock_name(word: &str, known: &[&str]) -> (r: Result<String, String>)
    ensures
        match r {
            Ok(name) => resolved(known@, word@) == Ok::<Seq<char>, Seq<char>>(name@),
            Err(e) => resolved(known@, word@) == Err::<Seq<char>, Seq<char>>(e@),
        },
{
    let mut found: Vec<String> = Vec::new();
    let mut i: usize = 0;
    assert(text::views(found@) == hits(known@.take(0), word@));
    while i < known.len()
        invariant
            i <= known@.len(),
            text::views(found@) == hits(known@.take(i as int), word@),
        decreases known@.len() - i,
    {
        assert(known@.take(i + 1).drop_last() == known@.take(i as int));
        if lock_matches(known[i], word) {
            add_name(&mut found, known[i]);
        }
        i += 1;
    }
    assert(known@.take(known@.len() as int) == known@);
    if found.len() == 0 {
        return Ok(text::owned(word));
    }
    if found.len() == 1 {
        assert(text::views(found@)[0] == found@[0]@);
        return Ok(found[0].clone());
    }
    let mut shown: Vec<String> = Vec::new();
    let mut k: usize = 0;
    while k < found.len()
        invariant
            k <= found@.len(),
            text::views(shown@) == choices(text::views(found@)).take(k as int),
        decreases found@.len() - k,
    {
        let ghost before = text::views(shown@);
        let mut line = text::owned("  ");
        line.append(job::visible(found[k].as_str()).as_str());
        assert(text::views(found@)[k as int] == found@[k as int]@);
        shown.push(line);
        assert(text::views(shown@) == before.push(line@));
        assert(choices(text::views(found@)).take(k + 1) == choices(text::views(found@)).take(
            k as int,
        ).push(line@));
        k += 1;
    }
    assert(choices(text::views(found@)).take(found@.len() as int) == choices(text::views(found@)));
    let mut e = text::owned("`");
    e.append(job::visible(word).as_str());
    e.append("` names ");
    e.append(text::decimal(found.len() as u64).as_str());
    e.append(
        " locks.\n\nTwo lock names give one safe form. qex cannot choose.\n\nUse one of these names:\n",
    );
    e.append(text::join(&shown, "\n").as_str());
    Err(e)
}

/// The position of the first request that a fault made, or the length.
pub open spec fn first_fault(list: Seq<PauseRecord>, i: nat) -> nat
    decreases list.len() - i,
{
    if i >= list.len() || list[i as int].fault {
        i
    } else {
        first_fault(list, i + 1)
    }
}

/// The reason that a job waits while the queue is paused.
pub open spec fn queue_reason_text(p: Paused) -> Seq<char> {
    let f = first_fault(p.queue@, 0);
    if f < p.queue@.len() {
        let record = p.queue@[f as int];
        "the queue is paused, so qex starts no job. qex could not read its pause record, and a record that qex cannot read can hold a pause, so qex holds the queue. The fault: "@
            + (match record.reason {
            Some(reason) => job::printable_of(reason@),
            None => "unknown"@,
        }) + ". Correct that file, or run `"@ + command_text(Target::Queue, record.id@)
            + "` to write a new one."@
    } else {
        let first = "the queue is paused, so qex starts no job."@;
        let count = if p.queue@.len() == 1 {
            let one = first + " 1 pause request stands."@;
            match p.queue@[0].reason {
                Some(reason) => one + " Reason: "@ + job::printable_of(reason@) + "."@,
                None => one,
            }
        } else {
            first + " "@ + text::digits(p.queue@.len()) + " pause requests stand."@
        };
        let since = match p.stopped_at() {
            Some(since) => count + " The queue stopped at "@ + stamp::stamp(since as nat) + "."@,
            None => count,
        };
        since + " Run `qex pause` to read each request, who made it and how it ends."@
    }
}

/// Gives the reason that a job in the queue waits, while the queue is paused.
///
/// This text holds no elapsed time and no session. The scheduler writes the
/// record of every job whose reason changed, so a reason that changed with the
/// time would write the record of every job in the queue, for the whole length
/// of the pause. This text changes only when the set of requests changes.
pub fn queue_reason(paused: &Paused) -> (r: String)
    ensures
        r@ == queue_reason_text(*paused),
{
    let mut i: usize = 0;
    while i < paused.queue.len() && !paused.queue[i].fault
        invariant
            i <= paused.queue@.len(),
            first_fault(paused.queue@, 0) == first_fault(paused.queue@, i as nat),
        decreases paused.queue@.len() - i,
    {
        i += 1;
    }
    if i < paused.queue.len() {
        let record = &paused.queue[i];
        let mut out = text::owned(
            "the queue is paused, so qex starts no job. qex could not read its pause record, and a record that qex cannot read can hold a pause, so qex holds the queue. The fault: ",
        );
        match &record.reason {
            Some(reason) => out.append(shown_reason(reason.as_str()).as_str()),
            None => out.append("unknown"),
        }
        out.append(". Correct that file, or run `");
        out.append(guarded_command(Target::Queue, record.id.as_str()).as_str());
        out.append("` to write a new one.");
        return out;
    }
    let mut out = text::owned("the queue is paused, so qex starts no job.");
    if paused.queue.len() == 1 {
        out.append(" 1 pause request stands.");
        if let Some(reason) = &paused.queue[0].reason {
            out.append(" Reason: ");
            out.append(shown_reason(reason.as_str()).as_str());
            out.append(".");
        }
    } else {
        out.append(" ");
        out.append(text::decimal(paused.queue.len() as u64).as_str());
        out.append(" pause requests stand.");
    }
    if let Some(since) = paused.since() {
        out.append(" The queue stopped at ");
        out.append(stamp::stamp_text(since).as_str());
        out.append(".");
    }
    out.append(" Run `qex pause` to read each request, who made it and how it ends.");
    out
}

/// Gives the reason that a job waits for a lock that a person holds.
pub fn lock_reason(name: &str) -> (r: String)
    ensures
        r@ == "waits for the lock `"@ + job::safe(name@) + "`, which a person holds"@,
{
    let mut out = text::owned("waits for the lock `");
    out.append(shown_lock(name).as_str());
    out.append("`, which a person holds");
    out
}

/// The earliest moment of the first `n` views.
pub open spec fn earliest_made(list: Seq<PauseView>, n: nat) -> Option<u64>
    decreases n,
{
    if n == 0 {
        None
    } else {
        match earliest_made(list, (n - 1) as nat) {
            None => Some(list[n - 1].made_at),
            Some(t) => Some(
                if list[n - 1].made_at < t {
                    list[n - 1].made_at
                } else {
                    t
                },
            ),
        }
    }
}

fn first_made(views: &[PauseView]) -> (r: Option<u64>)
    ensures
        r == earliest_made(views@, views@.len()),
{
    let mut first: Option<u64> = None;
    let mut i: usize = 0;
    while i < views.len()
        invariant
            i <= views@.len(),
            first == earliest_made(views@, i as nat),
        decreases views@.len() - i,
    {
        let at: u64 = views[i].made_at;
        first = match first {
            None => Some(at),
            Some(t) => Some(
                if at < t {
                    at
                } else {
                    t
                },
            ),
        };
        i += 1;
    }
    first
}

/// The lines of the standing requests, one for each.
pub open spec fn request_lines(list: Seq<PauseView>, target: Target<'_>, now: nat) -> Seq<
    Seq<char>,
> {
    list.map_values(|v: PauseView| line_text(v, target, now))
}

/// Adds one line for each standing request.
fn push_lines(out: &mut Vec<String>, views: &[PauseView], target: Target<'_>, now: u64)
    ensures
        text::views(final(out)@) == text::views(old(out)@) + request_lines(
            views@,
            target,
            now as nat,
        ),
{
    let ghost start = text::views(out@);
    let ghost all = request_lines(views@, target, now as nat);
    let mut i: usize = 0;
    assert(start + all.take(0) == start);
    while i < views.len()
        invariant
            i <= views@.len(),
            all == request_lines(views@, target, now as nat),
            text::views(out@) == start + all.take(i as int),
        decreases views@.len() - i,
    {
        let ghost before = text::views(out@);
        let line = request_line(&views[i], target, now);
        assert(all[i as int] == line@);
        out.push(line);
        assert(text::views(out@) == before.push(line@));
        assert(before.push(line@) == start + all.take(i + 1));
        i += 1;
    }
    assert(all.take(views@.len() as int) == all);
}

/// The lines that say how the queue is paused.
pub open spec fn queue_words(list: Seq<PauseView>, since: Option<u64>, now: u64) -> Seq<Seq<char>> {
    if list.len() == 0 {
        Seq::empty()
    } else {
        let at = match since {
            Some(t) => t,
            None => match earliest_made(list, list.len()) {
                Some(t) => t,
                None => now,
            },
        } as nat;
        seq![
            "the queue is paused since "@ + stamp::stamp(at) + " ("@ + ago_text(at, now as nat)
                + "): "@ + standing_words(list, "it runs again"@, now as nat),
        ] + request_lines(list, Target::Queue, now as nat)
    }
}

/// Gives the lines that say how the queue is paused: one summary line, and
/// then one line for each standing request.
///
/// Every command that shows the pause uses this function, so `qex info`,
/// `qex top`, `qex list` and `qex pause` never disagree.
///
/// `since` is the moment when the queue stopped running. It is NOT the time
/// of the newest request: a reader who sees "4m ago" on a queue that has been
/// quiet for six hours looks for the wrong cause.
pub fn queue_lines(views: &[PauseView], since: Option<u64>, now: u64) -> (r: Vec<String>)
    ensures
        text::views(r@) == queue_words(views@, since, now),
{
    let mut lines: Vec<String> = Vec::new();
    if views.len() == 0 {
        assert(text::views(lines@) == Seq::<Seq<char>>::empty());
        return lines;
    }
    let at: u64 = match since {
        Some(t) => t,
        None => match first_made(views) {
            Some(t) => t,
            None => now,
        },
    };
    let mut out = text::owned("the queue is paused since ");
    out.append(stamp::stamp_text(at).as_str());
    out.append(" (");
    out.append(ago(at, now).as_str());
    out.append("): ");
    out.append(standing_text(views, "it runs again", now).as_str());
    lines.push(out);
    assert(text::views(lines@) == seq![out@]);
    push_lines(&mut lines, views, Target::Queue, now);
    lines
}

/// The lines for a lock that a person holds.
pub open spec fn lock_words(
    name: &str,
    list: Seq<PauseView>,
    held_by: Option<&str>,
    now: u64,
) -> Seq<Seq<char>> {
    let at = match earliest_made(list, list.len()) {
        Some(t) => t,
        None => now,
    } as nat;
    let first = "lock `"@ + job::safe(name@) + "`: a person holds it since "@ + stamp::stamp(at)
        + " ("@ + ago_text(at, now as nat) + "): "@ + standing_words(
        list,
        "it is free again"@,
        now as nat,
    );
    let summary = match held_by {
        Some(job) => first + " · the job "@ + job@
            + " still holds it · qex gives it to the person when that job stops"@,
        None => first + " · no job holds it"@,
    };
    seq![summary] + request_lines(list, Target::Lock(name), now as nat)
}

/// Gives the lines for a lock that a person holds: one summary line, and then
/// one line for each standing request.
pub fn lock_lines(name: &str, views: &[PauseView], held_by: Option<&str>, now: u64) -> (r: Vec<
    String,
>)
    ensures
        text::views(r@) == lock_words(name, views@, held_by, now),
{
    let at: u64 = match first_made(views) {
        Some(t) => t,
        None => now,
    };
    let mut out = text::owned("lock `");
    out.append(shown_lock(name).as_str());
    out.append("`: a person holds it since ");
    out.append(stamp::stamp_text(at).as_str());
    out.append(" (");
    out.append(ago(at, now).as_str());
    out.append("): ");
    out.append(standing_text(views, "it is free again", now).as_str());
    match held_by {
        Some(job) => {
            out.append(" · the job ");
            out.append(job);
            out.append(" still holds it · qex gives it to the person when that job stops");
        },
        None => {
            out.append(" · no job holds it");
        },
    }
    let mut lines: Vec<String> = Vec::new();
    lines.push(out);
    assert(text::views(lines@) == seq![out@]);
    push_lines(&mut lines, views, Target::Lock(name), now);
    lines
}

/// The part of the JSON of a request that holds numbers of processes.
#[derive(Debug, Clone, PartialEq, Eq)]
pub struct Forensic {
    pub issuer_chain: Option<Vec<ChainEntry>>,
    pub caller_reported_pid: Option<i32>,
}

/// The fields of one request as the JSON shows them.
#[derive(Debug, Clone, PartialEq, Eq)]
pub struct ViewJson {
    pub pause_id: String,
    pub made_at: String,
    pub until: Option<String>,
    pub reason: Option<String>,
    pub fault: bool,
    pub issuer_session_state: &'static str,
    pub issuer_program: Option<String>,
    pub issuer_is_this_session: &'static str,
    pub resume_command: Option<String>,
    /// The default JSON has no such part.
    pub forensic: Option<Forensic>,
}

impl IssuerState {
    /// The word for the state.
    pub open spec fn word(self) -> Seq<char> {
        match self {
            IssuerState::Running => "running"@,
            IssuerState::Gone => "gone"@,
            IssuerState::Unknown => "unknown"@,
        }
    }

    /// The word for the state.
    pub fn as_str(self) -> (r: &'static str)
        ensures
            r@ == self.word(),
    {
        match self {
            IssuerState::Running => "running",
            IssuerState::Gone => "gone",
            IssuerState::Unknown => "unknown",
        }
    }
}

impl Relation {
    /// The word for the relation.
    pub open spec fn word(self) -> Seq<char> {
        match self {
            Relation::Yes => "yes"@,
            Relation::No => "no"@,
            Relation::Unknown => "unknown"@,
        }
    }

    /// The word for the relation.
    pub fn as_str(self) -> (r: &'static str)
        ensures
            r@ == self.word(),
    {
        match self {
            Relation::Yes => "yes",
            Relation::No => "no",
            Relation::Unknown => "unknown",
        }
    }
}

/// True when the fields are those of the request.
pub open spec fn fields_of(j: ViewJson, v: PauseView, target: Target<'_>, forensic: bool) -> bool {
    &&& j.pause_id@ == v.pause_id@
    &&& j.made_at@ == stamp::rfc3339_of(v.made_at as nat)
    &&& text::opt_view(j.until) == (match v.until {
        Some(end) => Some(stamp::rfc3339_of(end as nat)),
        None => None,
    })
    &&& text::opt_view(j.reason) == text::opt_view(v.reason)
    &&& j.fault == v.fault
    &&& j.issuer_session_state@ == v.issuer_session_state.word()
    &&& text::opt_view(j.issuer_program) == text::opt_view(v.issuer_program)
    &&& j.issuer_is_this_session@ == v.issuer_is_this_session.word()
    &&& text::opt_view(j.resume_command) == resume_text(v, target)
    &&& match j.forensic {
        None => !forensic,
        Some(f) => forensic && f.caller_reported_pid == v.caller_reported_pid && match (
            v.issuer_chain,
            f.issuer_chain,
        ) {
            (Some(a), Some(b)) => same_entries(a@, b@),
            (None, None) => true,
            _ => false,
        },
    }
}

/// True when the two lists hold the same entries.
pub open spec fn same_entries(a: Seq<ChainEntry>, b: Seq<ChainEntry>) -> bool {
    &&& a.len() == b.len()
    &&& forall|i: int|
        0 <= i < a.len() ==> (#[trigger] b[i]).host_pid == a[i].host_pid && b[i].start == a[i].start
            && b[i].name@ == a[i].name@
}

fn copy_entries(list: &Vec<ChainEntry>) -> (r: Vec<ChainEntry>)
    ensures
        same_entries(list@, r@),
{
    let mut out: Vec<ChainEntry> = Vec::new();
    let mut i: usize = 0;
    while i < list.len()
        invariant
            i <= list@.len(),
            same_entries(list@.take(i as int), out@),
        decreases list@.len() - i,
    {
        let e = &list[i];
        out.push(ChainEntry { host_pid: e.host_pid, start: e.start, name: e.name.clone() });
        i += 1;
    }
    assert(list@.take(list@.len() as int) == list@);
    out
}

/// Gives one request as the JSON shows it. The default holds NO process id of
/// any kind. `forensic` adds the chain that the coordinator read and the
/// number that the caller reported.
pub fn view_json(view: &PauseView, target: Target<'_>, forensic: bool) -> (r: ViewJson)
    ensures
        fields_of(r, *view, target, forensic),
{
    ViewJson {
        pause_id: view.pause_id.clone(),
        made_at: stamp::rfc3339(view.made_at),
        until: match view.until {
            Some(end) => Some(stamp::rfc3339(end)),
            None => None,
        },
        reason: job::copy_opt(&view.reason),
        fault: view.fault,
        issuer_session_state: view.issuer_session_state.as_str(),
        issuer_program: job::copy_opt(&view.issuer_program),
        issuer_is_this_session: view.issuer_is_this_session.as_str(),
        resume_command: resume_command(view, target),
        forensic: if forensic {
            Some(
                Forensic {
                    issuer_chain: match &view.issuer_chain {
                        Some(chain) => Some(copy_entries(chain)),
                        None => None,
                    },
                    caller_reported_pid: view.caller_reported_pid,
                },
            )
        } else {
            None
        },
    }
}

/// The text and the JSON of a request agree about the command: the JSON gives
/// one exactly when the rules for the advice allow one, and the line then ends
/// with it.
pub proof fn law_text_and_json_agree(
    j: ViewJson,
    v: PauseView,
    target: Target<'_>,
    forensic: bool,
    now: nat,
)
    requires
        fields_of(j, v, target, forensic),
    ensures
        j.resume_command matches Some(command) ==> exists|before: Seq<char>|
            line_text(v, target, now) == #[trigger] (before + command@),
        j.resume_command is Some <==> advised(v),
{
    if let Some(command) = j.resume_command {
        if v.fault {
            let fault = match v.reason {
                Some(reason) => job::printable_of(reason@),
                None => "unknown"@,
            };
            let before = "pause "@ + v.pause_id@
                + ": PAUSED BY A FAULT. qex could not read its pause record, and a record that qex cannot read can hold a pause, so qex holds the queue. The fault: "@
                + fault + ". "@;
            let remedy = "Correct that file, or write a new one: "@;
            assert(line_text(v, target, now) == before + remedy + command@);
        } else {
            let head = head_text(v, now) + " "@;
            match v.issuer_session_state {
                IssuerState::Running => {
                    let first =
                        "If a request of yours (not of a sibling agent) set it and its work is done: "@;
                    assert(line_text(v, target, now) == head + first + command@);
                },
                IssuerState::Gone => {
                    let first = match v.until {
                        Some(end) => "It ends by itself at "@ + stamp::near_stamp(end as nat, now)
                            + ", so waiting is the default."@,
                        None =>
                            "It still stands, and the processes of the session that set it have exited, so expect nobody to resume it."@,
                    };
                    let second = first
                        + " Ask your user, or resume it if the reason no longer applies: "@;
                    assert(line_text(v, target, now) == head + second + command@);
                },
                IssuerState::Unknown => {},
            }
        }
    }
}

/// The text holds the words of a resume command at the position `p`.
pub open spec fn resume_at(s: Seq<char>, p: int) -> bool {
    0 <= p && p + 10 <= s.len() && s.subrange(p, p + 10) == "qex resume"@
}

/// The text holds no resume command.
pub open spec fn holds_no_command(s: Seq<char>) -> bool {
    forall|p: int| !#[trigger] resume_at(s, p)
}

/// The text has no character with which a resume command begins.
spec fn quiet(s: Seq<char>) -> bool {
    forall|i: int| 0 <= i < s.len() ==> #[trigger] s[i] != 'q'
}

/// A resume command has the character nowhere.
spec fn foreign(c: char) -> bool {
    c == ',' || c == '.' || c == ':' || c == ')' || c == 'D'
}

proof fn lemma_command_letters(s: Seq<char>, p: int)
    requires
        resume_at(s, p),
    ensures
        s[p] == 'q',
        s[p + 3] == ' ',
        s[p + 4] == 'r',
        forall|i: int| p <= i < p + 10 ==> !foreign(#[trigger] s[i]),
{
    reveal_strlit("qex resume");
    let w = s.subrange(p, p + 10);
    assert(w[0] == s[p]);
    assert(w[3] == s[p + 3]);
    assert(w[4] == s[p + 4]);
    assert forall|i: int| p <= i < p + 10 implies !foreign(#[trigger] s[i]) by {
        assert(w[i - p] == s[i]);
        assert(w[0] == 'q' && w[1] == 'e' && w[2] == 'x' && w[3] == ' ' && w[4] == 'r' && w[5]
            == 'e' && w[6] == 's' && w[7] == 'u' && w[8] == 'm' && w[9] == 'e');
    }
}

proof fn lemma_quiet(s: Seq<char>)
    requires
        quiet(s),
    ensures
        holds_no_command(s),
{
    assert forall|p: int| !#[trigger] resume_at(s, p) by {
        if resume_at(s, p) {
            lemma_command_letters(s, p);
        }
    }
}

/// A text that begins no command, and then a text that holds none.
proof fn lemma_quiet_first(a: Seq<char>, b: Seq<char>)
    requires
        quiet(a),
        holds_no_command(b),
    ensures
        holds_no_command(a + b),
{
    let s = a + b;
    assert forall|p: int| !#[trigger] resume_at(s, p) by {
        if resume_at(s, p) {
            lemma_command_letters(s, p);
            if p < a.len() {
                assert(s[p] == a[p]);
            } else {
                assert(b.subrange(p - a.len(), p - a.len() + 10) == s.subrange(p, p + 10));
                assert(resume_at(b, p - a.len()));
            }
        }
    }
}

/// A text that holds no command, and then one that cannot continue a command.
proof fn lemma_then_foreign(a: Seq<char>, b: Seq<char>)
    requires
        holds_no_command(a),
        holds_no_command(b),
        b.len() > 0,
        foreign(b[0]),
    ensures
        holds_no_command(a + b),
{
    let s = a + b;
    assert forall|p: int| !#[trigger] resume_at(s, p) by {
        if resume_at(s, p) {
            lemma_command_letters(s, p);
            if p + 10 <= a.len() {
                assert(a.subrange(p, p + 10) == s.subrange(p, p + 10));
                assert(resume_at(a, p));
            } else if p >= a.len() {
                assert(b.subrange(p - a.len(), p - a.len() + 10) == s.subrange(p, p + 10));
                assert(resume_at(b, p - a.len()));
            } else {
                assert(s[a.len() as int] == b[0]);
            }
        }
    }
}

proof fn lemma_quiet_join(a: Seq<char>, b: Seq<char>)
    requires
        quiet(a),
        quiet(b),
    ensures
        quiet(a + b),
{
}

proof fn lemma_quiet_digits(n: nat)
    ensures
        quiet(text::digits(n)),
    decreases n,
{
    if n >= 10 {
        lemma_quiet_digits(n / 10);
    }
}

proof fn lemma_quiet_padded(n: nat, width: nat)
    ensures
        quiet(text::padded(text::digits(n), '0', width)),
{
    lemma_quiet_digits(n);
}

proof fn lemma_quiet_clock(secs: nat)
    ensures
        quiet(stamp::clock_text(secs)),
{
    reveal_strlit(":");
    lemma_quiet_padded(secs % 86400 / 3600, 2);
    lemma_quiet_padded(secs % 3600 / 60, 2);
    let hour = stamp::two(secs % 86400 / 3600);
    lemma_quiet_join(hour, ":"@);
    lemma_quiet_join(hour + ":"@, stamp::two(secs % 3600 / 60));
}

proof fn lemma_quiet_date(secs: nat)
    ensures
        quiet(stamp::date_text(secs)),
{
    reveal_strlit("-");
    let d = stamp::date_at(secs);
    let year = text::padded(text::digits(d.year as nat), '0', 4);
    let month = stamp::two(d.month as nat);
    lemma_quiet_padded(d.year as nat, 4);
    lemma_quiet_padded(d.month as nat, 2);
    lemma_quiet_padded(d.day as nat, 2);
    lemma_quiet_join(year, "-"@);
    lemma_quiet_join(year + "-"@, month);
    lemma_quiet_join(year + "-"@ + month, "-"@);
    lemma_quiet_join(year + "-"@ + month + "-"@, stamp::two(d.day as nat));
}

proof fn lemma_quiet_stamp(secs: nat, now: nat)
    ensures
        quiet(stamp::near_stamp(secs, now)),
{
    reveal_strlit(" UTC");
    reveal_strlit(" ");
    let clock = stamp::clock_text(secs);
    let date = stamp::date_text(secs);
    lemma_quiet_clock(secs);
    lemma_quiet_date(secs);
    lemma_quiet_join(clock, " UTC"@);
    lemma_quiet_join(date, " "@);
    lemma_quiet_join(date + " "@, clock);
    lemma_quiet_join(date + " "@ + clock, " UTC"@);
}

proof fn lemma_quiet_duration(secs: nat)
    ensures
        quiet(units::duration_text(secs)),
{
    reveal_strlit("s");
    reveal_strlit("m");
    reveal_strlit("h");
    reveal_strlit("d");
    lemma_quiet_digits(secs);
    lemma_quiet_digits(secs / 60);
    lemma_quiet_digits(secs % 60);
    lemma_quiet_digits(secs / 3600);
    lemma_quiet_digits(secs % 3600 / 60);
    lemma_quiet_digits(secs / 86400);
    lemma_quiet_digits(secs % 86400 / 3600);
}

proof fn lemma_quiet_until(until: Option<u64>, now: nat)
    ensures
        quiet(until_text(until, now)),
{
    reveal_strlit("until ");
    reveal_strlit(" (in ");
    reveal_strlit(")");
    reveal_strlit("until somebody resumes it");
    if let Some(end) = until {
        lemma_quiet_stamp(end as nat, now);
        lemma_quiet_duration(
            if end < now {
                0
            } else {
                (end - now) as nat
            },
        );
    }
}

/// The session in words, after a comma.
proof fn lemma_from_holds_no_command(v: PauseView)
    ensures
        from_text(v) matches Some(t) ==> holds_no_command(", "@ + t) && (", "@ + t).len() > 0
            && foreign((", "@ + t)[0]),
{
    reveal_strlit(", ");
    reveal_strlit("unknown");
    reveal_strlit(")");
    reveal_strlit(", still running)");
    reveal_strlit("from THIS session (");
    reveal_strlit("from another session that is still running (");
    reveal_strlit("from a session that is still running (");
    reveal_strlit("from a session that is gone (");
    let program = match v.issuer_program {
        Some(p) => job::safe(p@),
        None => "unknown"@,
    };
    assert(holds_no_command(program)) by {
        if let Some(p) = v.issuer_program {
            job::law_safe_name(p@);
            assert forall|k: int| !#[trigger] resume_at(program, k) by {
                if resume_at(program, k) {
                    lemma_command_letters(program, k);
                    assert(job::kept_in_name(program[k + 3]));
                }
            }
        } else {
            lemma_quiet(program);
        }
    }
    if let Some(t) = from_text(v) {
        let (first, last) = match (v.issuer_session_state, v.issuer_is_this_session) {
            (IssuerState::Unknown, _) => (""@, ""@),
            (IssuerState::Running, Relation::Yes) => ("from THIS session ("@, ", still running)"@),
            (IssuerState::Running, Relation::No) => (
                "from another session that is still running ("@,
                ")"@,
            ),
            (IssuerState::Running, Relation::Unknown) => (
                "from a session that is still running ("@,
                ")"@,
            ),
            (IssuerState::Gone, _) => ("from a session that is gone ("@, ")"@),
        };
        lemma_quiet(last);
        lemma_then_foreign(program, last);
        lemma_quiet_join(", "@, first);
        lemma_quiet_first(", "@ + first, program + last);
        assert(", "@ + t == ", "@ + first + (program + last));
    }
}

/// The advice of a line that gives no command.
proof fn lemma_advice_holds_no_command(v: PauseView, target: Target<'_>, now: nat)
    requires
        resume_text(v, target) is None,
    ensures
        holds_no_command(advice_text(v, target, now)),
{
    let advice = advice_text(v, target, now);
    reveal_strlit(
        "Do not resume it unless you hold this id from your own `pause` answer or your user tells you to.",
    );
    assert(quiet(DO_NOT_RESUME@));
    lemma_quiet(DO_NOT_RESUME@);
    match v.issuer_session_state {
        IssuerState::Unknown => {
            lemma_unknown_advice();
            if v.pause_id@.len() > 0 {
                lemma_then_foreign(
                    "qex cannot tell which session set it or whether that session is still there, so treat it as still there. "@,
                    DO_NOT_RESUME@,
                );
            }
        },
        IssuerState::Running => {
            reveal_strlit("That session can resume it. ");
            lemma_quiet_first("That session can resume it. "@, DO_NOT_RESUME@);
        },
        IssuerState::Gone => {
            reveal_strlit("");
            reveal_strlit(" Ask your user, or resume it if the reason no longer applies: ");
            let first = match v.until {
                Some(end) => "It ends by itself at "@ + stamp::near_stamp(end as nat, now)
                    + ", so waiting is the default."@,
                None =>
                    "It still stands, and the processes of the session that set it have exited, so expect nobody to resume it."@,
            };
            assert(quiet(first)) by {
                if let Some(end) = v.until {
                    reveal_strlit("It ends by itself at ");
                    reveal_strlit(", so waiting is the default.");
                    lemma_quiet_stamp(end as nat, now);
                } else {
                    reveal_strlit(
                        "It still stands, and the processes of the session that set it have exited, so expect nobody to resume it.",
                    );
                }
            }
            let ask = " Ask your user, or resume it if the reason no longer applies: "@;
            assert(quiet(ask));
            lemma_quiet_join(first, ask);
            lemma_quiet_join(first + ask, ""@);
            lemma_quiet(first + ask + ""@);
        },
    }
}

proof fn lemma_unknown_advice()
    ensures
        holds_no_command(
            "qex cannot tell which session set it or whether that session is still there, so treat it as still there. Do not resume it unless your user tells you to."@,
        ),
        holds_no_command(
            "qex cannot tell which session set it or whether that session is still there, so treat it as still there. "@,
        ),
{
    reveal_strlit(
        "qex cannot tell which session set it or whether that session is still there, so treat it as still there. Do not resume it unless your user tells you to.",
    );
    reveal_strlit(
        "qex cannot tell which session set it or whether that session is still there, so treat it as still there. ",
    );
    let a =
        "qex cannot tell which session set it or whether that session is still there, so treat it as still there. Do not resume it unless your user tells you to."@;
    let b =
        "qex cannot tell which session set it or whether that session is still there, so treat it as still there. "@;
    assert forall|p: int| !#[trigger] resume_at(a, p) by {
        if resume_at(a, p) {
            lemma_command_letters(a, p);
            assert(p == 0);
        }
    }
    assert forall|p: int| !#[trigger] resume_at(b, p) by {
        if resume_at(b, p) {
            lemma_command_letters(b, p);
            assert(p == 0);
        }
    }
}

/// The words of a fault, and then a text that holds no command.
proof fn lemma_fault_words(x: Seq<char>)
    requires
        holds_no_command(x),
    ensures
        holds_no_command(
            ": PAUSED BY A FAULT. qex could not read its pause record, and a record that qex cannot read can hold a pause, so qex holds the queue. The fault: "@
                + x,
        ),
{
    reveal_strlit(
        ": PAUSED BY A FAULT. qex could not read its pause record, and a record that qex cannot read can hold a pause, so qex holds the queue. The fault: ",
    );
    let a =
        ": PAUSED BY A FAULT. qex could not read its pause record, and a record that qex cannot read can hold a pause, so qex holds the queue. The fault: "@;
    let s = a + x;
    assert forall|p: int| !#[trigger] resume_at(s, p) by {
        if resume_at(s, p) {
            lemma_command_letters(s, p);
            if p < a.len() {
                assert(a[p] == 'q');
                assert(p + 4 < a.len());
                assert(a[p + 4] == 'r');
            } else {
                assert(x.subrange(p - a.len(), p - a.len() + 10) == s.subrange(p, p + 10));
                assert(resume_at(x, p - a.len()));
            }
        }
    }
}

/// A line that gives no command holds no text of one: where the id and the
/// reason as it is shown do not hold the words `qex resume` themselves, and the
/// rules for the advice allow no command, those words stand nowhere in the line.
pub proof fn law_a_line_without_a_command_holds_none(v: PauseView, target: Target<'_>, now: nat)
    requires
        resume_text(v, target) is None,
        holds_no_command(v.pause_id@),
        v.reason matches Some(reason) ==> holds_no_command(job::printable_of(reason@)),
    ensures
        holds_no_command(line_text(v, target, now)),
{
    reveal_strlit("pause ");
    reveal_strlit(". ");
    reveal_strlit(" ");
    reveal_strlit(".");
    if v.fault {
        reveal_strlit("unknown");
        reveal_strlit("Correct that file.");
        let fault = match v.reason {
            Some(reason) => job::printable_of(reason@),
            None => "unknown"@,
        };
        if v.reason is None {
            lemma_quiet(fault);
        }
        let words =
            ": PAUSED BY A FAULT. qex could not read its pause record, and a record that qex cannot read can hold a pause, so qex holds the queue. The fault: "@;
        let rest = ". "@ + "Correct that file."@;
        lemma_quiet_join(". "@, "Correct that file."@);
        lemma_quiet(rest);
        lemma_then_foreign(fault, rest);
        lemma_fault_words(fault + rest);
        lemma_quiet_first("pause "@, words + (fault + rest));
        assert(v.pause_id@ == Seq::<char>::empty());
        assert(line_text(v, target, now) == "pause "@ + (words + (fault + rest)));
    } else {
        lemma_head_without_reason(v, now);
        lemma_head_parts(v, now);
        lemma_advice_holds_no_command(v, target, now);
        let head = head_before_reason(v, now);
        let advice = advice_text(v, target, now);
        match v.reason {
            Some(reason) => {
                reveal_strlit(", reason: ");
                let shown = job::printable_of(reason@);
                let rest = ". "@ + advice;
                lemma_quiet_first(". "@, advice);
                lemma_then_foreign(shown, rest);
                lemma_quiet_first(", reason: "@, shown + rest);
                lemma_then_foreign(head, ", reason: "@ + (shown + rest));
                assert(". "@ == "."@ + " "@);
                assert(line_text(v, target, now) == head + (", reason: "@ + (shown + rest)));
            },
            None => {
                reveal_strlit(", no reason given.");
                let rest = ", no reason given."@ + " "@;
                lemma_quiet_join(", no reason given."@, " "@);
                lemma_quiet_first(rest, advice);
                lemma_then_foreign(head, rest + advice);
                assert(line_text(v, target, now) == head + (rest + advice));
            },
        }
    }
}

/// The moment, the age and the end of a request, after its name.
spec fn times_text(v: PauseView, now: nat) -> Seq<char> {
    ", made "@ + stamp::near_stamp(v.made_at as nat, now) + " ("@ + ago_text(v.made_at as nat, now)
        + "), "@ + until_text(v.until, now)
}

/// The name of a request in its line.
spec fn name_text(v: PauseView) -> Seq<char> {
    if v.pause_id@.len() == 0 {
        "a pause with no id (this coordinator is an earlier version)"@
    } else {
        "pause "@ + v.pause_id@
    }
}

/// The facts of a request before its reason.
spec fn head_before_reason(v: PauseView, now: nat) -> Seq<char> {
    let facts = name_text(v) + times_text(v, now);
    match from_text(v) {
        Some(t) => facts + (", "@ + t),
        None => facts,
    }
}

proof fn lemma_head_parts(v: PauseView, now: nat)
    ensures
        head_text(v, now) == head_before_reason(v, now) + (match v.reason {
            Some(reason) => ", reason: "@ + job::printable_of(reason@) + "."@,
            None => ", no reason given."@,
        }),
{
    let name = name_text(v);
    let facts = name + ", made "@ + stamp::near_stamp(v.made_at as nat, now) + " ("@ + ago_text(
        v.made_at as nat,
        now,
    ) + "), "@ + until_text(v.until, now);
    assert(facts == name + times_text(v, now));
    let from = match from_text(v) {
        Some(t) => facts + ", "@ + t,
        None => facts,
    };
    assert(from == head_before_reason(v, now));
    if let Some(reason) = v.reason {
        let shown = job::printable_of(reason@);
        assert(from + ", reason: "@ + shown + "."@ == from + (", reason: "@ + shown + "."@));
    }
}

proof fn lemma_quiet_times(v: PauseView, now: nat)
    ensures
        quiet(times_text(v, now)),
        times_text(v, now).len() > 0,
        times_text(v, now)[0] == ',',
{
    let made = stamp::near_stamp(v.made_at as nat, now);
    let since: nat = if now < v.made_at {
        0
    } else {
        (now - v.made_at) as nat
    };
    let ago = ago_text(v.made_at as nat, now);
    let until = until_text(v.until, now);
    assert(quiet(made)) by {
        lemma_quiet_stamp(v.made_at as nat, now);
    }
    assert(quiet(ago)) by {
        reveal_strlit(" ago");
        lemma_quiet_duration(since);
        lemma_quiet_join(units::duration_text(since), " ago"@);
    }
    assert(quiet(until)) by {
        lemma_quiet_until(v.until, now);
    }
    assert(quiet(", made "@) && ", made "@.len() == 7 && ", made "@[0] == ',') by {
        reveal_strlit(", made ");
    }
    assert(quiet(" ("@)) by {
        reveal_strlit(" (");
    }
    assert(quiet("), "@)) by {
        reveal_strlit("), ");
    }
    let a = ", made "@ + made;
    let b = a + " ("@;
    let c = b + ago;
    let d = c + "), "@;
    lemma_quiet_join(", made "@, made);
    lemma_quiet_join(a, " ("@);
    lemma_quiet_join(b, ago);
    lemma_quiet_join(c, "), "@);
    lemma_quiet_join(d, until);
    assert((d + until)[0] == a[0]);
}

proof fn lemma_head_without_reason(v: PauseView, now: nat)
    requires
        holds_no_command(v.pause_id@),
    ensures
        holds_no_command(head_before_reason(v, now)),
{
    let name = name_text(v);
    assert(holds_no_command(name)) by {
        if v.pause_id@.len() == 0 {
            reveal_strlit("a pause with no id (this coordinator is an earlier version)");
            lemma_quiet(name);
        } else {
            reveal_strlit("pause ");
            lemma_quiet_first("pause "@, v.pause_id@);
        }
    }
    let times = times_text(v, now);
    lemma_quiet_times(v, now);
    lemma_quiet(times);
    lemma_then_foreign(name, times);
    lemma_from_holds_no_command(v);
    if let Some(t) = from_text(v) {
        lemma_then_foreign(name + times, ", "@ + t);
    }
}

// ---------------------------------------------------------------------------
// What the texts promise.
// ---------------------------------------------------------------------------

/// qex offers a command to end a request exactly where the request has an id and
/// a fault made it, or its session is gone, or the reader is in its session. The
/// command names that request.
pub proof fn law_when_a_resume_is_offered(view: &PauseView, target: Target<'_>, r: Option<String>)
    requires
        call_ensures(resume_command, (view, target), r),
    ensures
        r is Some <==> view.pause_id@.len() > 0 && (view.fault || view.issuer_session_state is Gone
            || (view.issuer_session_state is Running && view.issuer_is_this_session is Yes)),
        r is Some && target is Queue ==> r->0@ == "qex resume queue --pause "@ + view.pause_id@,
        r is Some && target is Lock ==> r->0@ == "qex resume lock "@ + job::safe(target->0@)
            + " --pause "@ + view.pause_id@,
{
}

/// A moment in the past shows the time since then, and a moment that is still to
/// come shows none.
pub proof fn law_how_long_ago(then: u64, now: u64, r: String)
    requires
        call_ensures(ago, (then, now), r),
    ensures
        then <= now ==> r@ == units::duration_text((now - then) as nat) + " ago"@,
        then > now ==> r@ == units::duration_text(0) + " ago"@,
{
}

/// A request with an end shows the moment of it and the time until then; one
/// without an end says that somebody must resume it.
pub proof fn law_how_an_end_is_shown(until: Option<u64>, now: u64, r: String)
    requires
        call_ensures(end_text, (until, now), r),
    ensures
        until is None ==> r@ == "until somebody resumes it"@,
        until is Some && until->0 >= now ==> r@ == "until "@ + stamp::near_stamp(
            until->0 as nat,
            now as nat,
        ) + " (in "@ + units::duration_text((until->0 - now) as nat) + ")"@,
{
}

/// A word names a lock by its own name or by its safe form, and two names are of
/// one lock where they are equal or have one safe form.
pub proof fn law_which_words_name_a_lock(a: &str, b: &str, matches_r: bool, same_r: bool)
    requires
        call_ensures(lock_matches, (a, b), matches_r),
        call_ensures(lock_same, (a, b), same_r),
    ensures
        matches_r <==> a@ == b@ || job::safe(a@) == b@,
        same_r <==> a@ == b@ || job::safe(a@) == job::safe(b@),
{
}

/// The list is in strict order.
spec fn in_order(list: Seq<Seq<char>>) -> bool {
    forall|i: int, j: int|
        0 <= i < j < list.len() ==> text::before(#[trigger] list[i], #[trigger] list[j])
}

proof fn lemma_with_name_order(list: Seq<Seq<char>>, name: Seq<char>)
    requires
        in_order(list),
    ensures
        in_order(with_name(list, name)),
        forall|k: int|
            0 <= k < with_name(list, name).len() ==> #[trigger] with_name(list, name)[k] == name
                || list.contains(with_name(list, name)[k]),
    decreases list.len(),
{
    let out = with_name(list, name);
    if list.len() == 0 {
    } else if list[0] == name {
        assert forall|k: int| 0 <= k < out.len() implies #[trigger] out[k] == name || list.contains(
            out[k],
        ) by {
            assert(list[k] == out[k]);
        }
    } else if text::before(name, list[0]) {
        assert forall|i: int, j: int| 0 <= i < j < out.len() implies text::before(
            #[trigger] out[i],
            #[trigger] out[j],
        ) by {
            assert(out[j] == list[j - 1]);
            if i == 0 {
                if j > 1 {
                    text::lemma_before_chain(name, list[0], list[j - 1]);
                }
            } else {
                assert(out[i] == list[i - 1]);
            }
        }
        assert forall|k: int| 0 <= k < out.len() implies #[trigger] out[k] == name || list.contains(
            out[k],
        ) by {
            if k > 0 {
                assert(out[k] == list[k - 1]);
            }
        }
    } else {
        let rest = list.skip(1);
        assert forall|i: int, j: int| 0 <= i < j < rest.len() implies text::before(
            #[trigger] rest[i],
            #[trigger] rest[j],
        ) by {
            assert(rest[i] == list[i + 1] && rest[j] == list[j + 1]);
        }
        lemma_with_name_order(rest, name);
        let more = with_name(rest, name);
        text::lemma_before_total(name, list[0]);
        assert forall|k: int| 0 <= k < more.len() implies text::before(
            list[0],
            #[trigger] more[k],
        ) && (more[k] == name || list.contains(more[k])) by {
            if more[k] != name {
                let m = rest.index_of(more[k]);
                assert(rest[m] == list[m + 1]);
            }
        }
        assert forall|i: int, j: int| 0 <= i < j < out.len() implies text::before(
            #[trigger] out[i],
            #[trigger] out[j],
        ) by {
            assert(out[j] == more[j - 1]);
            if i > 0 {
                assert(out[i] == more[i - 1]);
            }
        }
        assert forall|k: int| 0 <= k < out.len() implies #[trigger] out[k] == name || list.contains(
            out[k],
        ) by {
            if k == 0 {
                assert(out[0] == list[0]);
            } else {
                assert(out[k] == more[k - 1]);
            }
        }
    }
}

proof fn lemma_hits_order(known: Seq<&str>, word: Seq<char>)
    ensures
        in_order(hits(known, word)),
    decreases known.len(),
{
    if known.len() > 0 {
        lemma_hits_order(known.drop_last(), word);
        if names_lock(known.last()@, word) {
            lemma_with_name_order(hits(known.drop_last(), word), known.last()@);
        }
    }
}

/// A word stands for the one known lock that it names. It stands for itself
/// where it names none, and it is refused exactly where it names two different
/// ones.
pub proof fn law_which_lock_a_word_stands_for(
    word: &str,
    known: &[&str],
    r: Result<String, String>,
    i: int,
    j: int,
)
    requires
        call_ensures(resolve_lock_name, (word, known), r),
        0 <= i < known@.len(),
        0 <= j < known@.len(),
    ensures
        names_lock(known@[i]@, word@) && names_lock(known@[j]@, word@) && known@[i]@ != known@[j]@
            ==> r is Err,
        names_lock(known@[i]@, word@) && r is Ok ==> r->Ok_0@ == known@[i]@,
        (forall|k: int| 0 <= k < known@.len() ==> !names_lock((#[trigger] known@[k])@, word@))
            ==> r is Ok && r->Ok_0@ == word@,
        r is Err ==> exists|a: int, b: int|
            0 <= a < known@.len() && 0 <= b < known@.len() && names_lock(
                (#[trigger] known@[a])@,
                word@,
            ) && names_lock((#[trigger] known@[b])@, word@) && known@[a]@ != known@[b]@,
{
    let found = hits(known@, word@);
    law_hits(known@, word@, known@[i]@);
    law_hits(known@, word@, known@[j]@);
    lemma_hits_order(known@, word@);
    if names_lock(known@[i]@, word@) {
        assert(found.contains(known@[i]@));
        let k = found.index_of(known@[i]@);
        if names_lock(known@[j]@, word@) && known@[i]@ != known@[j]@ {
            assert(found.contains(known@[j]@));
            let m = found.index_of(known@[j]@);
            assert(k != m);
        }
    }
    if forall|k: int| 0 <= k < known@.len() ==> !names_lock((#[trigger] known@[k])@, word@) {
        if found.len() > 0 {
            assert(found.contains(found[0]));
            law_hits(known@, word@, found[0]);
        }
    }
    if r is Err {
        assert(found.contains(found[0]));
        assert(found.contains(found[1]));
        law_hits(known@, word@, found[0]);
        law_hits(known@, word@, found[1]);
        assert(text::before(found[0], found[1]));
        text::lemma_before_total(found[0], found[1]);
        let a = choose|a: int| 0 <= a < known@.len() && (#[trigger] known@[a])@ == found[0];
        let b = choose|b: int| 0 <= b < known@.len() && (#[trigger] known@[b])@ == found[1];
        assert(known@[a]@ != known@[b]@);
    }
}

/// The line of a request names it. Where a fault made the request, the line says
/// that qex holds the queue; every other line says when it was made.
pub proof fn law_the_line_of_a_request(view: &PauseView, target: Target<'_>, now: u64, r: String)
    requires
        call_ensures(request_line, (view, target, now), r),
        view.pause_id@.len() > 0,
    ensures
        view.fault ==> text::begins(
            r@,
            "pause "@ + view.pause_id@
                + ": PAUSED BY A FAULT. qex could not read its pause record, and a record that qex cannot read can hold a pause, so qex holds the queue. The fault: "@,
        ),
        !view.fault ==> text::begins(r@, "pause "@ + view.pause_id@ + ", made "@),
{
    if view.fault {
        let want = "pause "@ + view.pause_id@
            + ": PAUSED BY A FAULT. qex could not read its pause record, and a record that qex cannot read can hold a pause, so qex holds the queue. The fault: "@;
        assert(line_text(*view, target, now as nat).subrange(0, want.len() as int) == want);
    } else {
        lemma_head_names(*view, now as nat);
        let want = "pause "@ + view.pause_id@ + ", made "@;
        let head = head_text(*view, now as nat);
        let tail = " "@ + advice_text(*view, target, now as nat);
        assert(line_text(*view, target, now as nat) == head + tail);
        assert((head + tail).subrange(0, want.len() as int) == head.subrange(
            0,
            want.len() as int,
        ));
    }
}

proof fn lemma_head_names(v: PauseView, now: nat)
    requires
        v.pause_id@.len() > 0,
    ensures
        text::begins(head_text(v, now), "pause "@ + v.pause_id@ + ", made "@),
{
    let want = "pause "@ + v.pause_id@ + ", made "@;
    let facts = want + stamp::near_stamp(v.made_at as nat, now) + " ("@ + ago_text(
        v.made_at as nat,
        now,
    ) + "), "@ + until_text(v.until, now);
    let from = match from_text(v) {
        Some(t) => facts + ", "@ + t,
        None => facts,
    };
    assert(from.subrange(0, want.len() as int) == want);
    assert(head_text(v, now).subrange(0, want.len() as int) == from.subrange(0, want.len() as int));
}

/// The end of a set is the latest end of its requests, and there is none where a
/// request has none.
pub proof fn law_the_end_of_a_set(views: &[PauseView], r: Option<u64>, i: int)
    requires
        call_ensures(last_end, (views,), r),
        0 <= i < views@.len(),
    ensures
        views@[i].until is None ==> r is None,
        r is Some ==> views@[i].until is Some && views@[i].until->0 <= r->0,
        r is Some ==> exists|k: int| 0 <= k < views@.len() && (#[trigger] views@[k]).until == r,
{
    law_set_end(views@, views@.len());
}

/// The text about the requests that stand gives their number.
pub proof fn law_the_number_of_requests(views: &[PauseView], again: &str, now: u64, r: String)
    requires
        call_ensures(standing_text, (views, again, now), r),
    ensures
        views@.len() == 1 ==> text::begins(r@, "1 request stands; "@ + again@),
        views@.len() != 1 ==> text::begins(
            r@,
            text::digits(views@.len()) + " requests stand; "@ + again@,
        ),
{
    let one = "1 request stands; "@ + again@;
    let many = text::digits(views@.len()) + " requests stand; "@ + again@;
    if views@.len() == 1 {
        assert(r@.subrange(0, one.len() as int) == one);
    } else {
        assert(r@.subrange(0, many.len() as int) == many);
    }
}

/// The reason of a paused queue says that qex starts no job. It gives the number
/// of the requests, or the fault where a fault made one of them.
pub proof fn law_the_reason_of_a_paused_queue(paused: &Paused, r: String)
    requires
        call_ensures(queue_reason, (paused,), r),
        forall|i: int| 0 <= i < paused.queue@.len() ==> !(#[trigger] paused.queue@[i]).fault,
    ensures
        paused.queue@.len() == 1 ==> text::begins(
            r@,
            "the queue is paused, so qex starts no job."@ + " 1 pause request stands."@,
        ),
        paused.queue@.len() != 1 ==> text::begins(
            r@,
            "the queue is paused, so qex starts no job."@ + " "@ + text::digits(
                paused.queue@.len(),
            ) + " pause requests stand."@,
        ),
{
    lemma_no_fault(paused.queue@, 0);
    let first = "the queue is paused, so qex starts no job."@;
    let one = first + " 1 pause request stands."@;
    let many = first + " "@ + text::digits(paused.queue@.len()) + " pause requests stand."@;
    if paused.queue@.len() == 1 {
        assert(r@.subrange(0, one.len() as int) == one);
    } else {
        assert(r@.subrange(0, many.len() as int) == many);
    }
}

proof fn lemma_no_fault(list: Seq<PauseRecord>, i: nat)
    requires
        i <= list.len(),
        forall|k: int| i <= k < list.len() ==> !(#[trigger] list[k]).fault,
    ensures
        first_fault(list, i) == list.len(),
    decreases list.len() - i,
{
    if i < list.len() {
        lemma_no_fault(list, i + 1);
    }
}

} // verus!

//! A short record of every job that qex accepted.
//!
//! When the record of a job is gone, a reader must be able to tell two
//! conditions apart: the id is wrong, or the job existed and its work may have
//! happened. The history holds one line for each job that answers this. It never
//! holds the command, because a command line can hold a token.

use crate::ids;
use crate::job;
use crate::job::{JobSpec, JobStatus};
use crate::paths;
use crate::paths::Places;
use crate::text;
use crate::units;
use std::collections::HashSet;
use vstd::prelude::*;
use vstd::string::*;

verus! {

/// The number of lines to keep, whatever their age.
pub const MAX_LINES: usize = 20_000;

/// One line of the history.
#[derive(Debug)]
pub struct Entry {
    pub id: u128,
    pub name: String,
    pub submitted_at: u64,
    /// The time when qex deleted the record of this job.
    pub removed_at: Option<u64>,
    /// The final state of the job, when qex knew it at the removal.
    pub final_state: Option<String>,
}

/// What a line says.
pub struct Line {
    pub id: u128,
    pub name: Seq<char>,
    pub submitted_at: u64,
    pub removed_at: Option<u64>,
    pub final_state: Option<Seq<char>>,
}

impl View for Entry {
    type V = Line;

    open spec fn view(&self) -> Line {
        Line {
            id: self.id,
            name: self.name@,
            submitted_at: self.submitted_at,
            removed_at: self.removed_at,
            final_state: text::opt_view(self.final_state),
        }
    }
}

/// What the lines say.
pub open spec fn lines(list: Seq<Entry>) -> Seq<Line> {
    list.map_values(|e: Entry| e@)
}

impl Entry {
    /// A copy of the line.
    pub fn copy(&self) -> (r: Self)
        ensures
            r@ == self@,
    {
        Entry {
            id: self.id,
            name: self.name.clone(),
            submitted_at: self.submitted_at,
            removed_at: self.removed_at,
            final_state: job::copy_opt(&self.final_state),
        }
    }
}

/// Gives the location of the history.
pub fn path(places: &Places) -> (r: Result<String, String>)
    ensures
        paths::gives(r, paths::below_state(*places, seq!["history.jsonl"@])),
{
    proof {
        reveal_with_fuel(paths::below_state, 2);
        assert(seq!["history.jsonl"@].drop_last() == Seq::<Seq<char>>::empty());
    }
    match paths::state_dir(places) {
        Ok(dir) => Ok(paths::join(dir.as_str(), "history.jsonl")),
        Err(e) => Err(e),
    }
}

/// The line of a job that qex accepted.
pub open spec fn accepted(id: u128, name: Seq<char>, submitted_at: u64) -> Line {
    Line { id, name, submitted_at, removed_at: None, final_state: None }
}

/// The line of a job whose record goes at this moment.
pub open spec fn removed(status: JobStatus, now: u64) -> Line {
    Line {
        id: status.id,
        name: status.name@,
        submitted_at: status.submitted_at,
        removed_at: Some(now),
        final_state: Some(status.state.word()),
    }
}

/// Makes the line of a job that qex accepted.
pub fn record_submit(spec: &JobSpec) -> (r: Entry)
    ensures
        r@ == accepted(spec.id, spec.name@, spec.submitted_at),
{
    record_submit_for(spec.id, spec.name.as_str(), spec.submitted_at)
}

/// Makes the line of a job that qex accepted, from its parts.
pub fn record_submit_for(id: u128, name: &str, submitted_at: u64) -> (r: Entry)
    ensures
        r@ == accepted(id, name@, submitted_at),
{
    Entry { id, name: text::owned(name), submitted_at, removed_at: None, final_state: None }
}

/// Makes the line for the removal of the record of a job.
pub fn record_removed(status: &JobStatus, now: u64) -> (r: Entry)
    ensures
        r@ == removed(*status, now),
{
    Entry {
        id: status.id,
        name: status.name.clone(),
        submitted_at: status.submitted_at,
        removed_at: Some(now),
        final_state: Some(text::owned(status.state.as_str())),
    }
}

/// No later line is about the job of line `i`.
pub open spec fn newest(list: Seq<Line>, i: int) -> bool {
    forall|j: int| i < j < list.len() ==> (#[trigger] list[j]).id != list[i].id
}

/// The newest lines of the jobs among the first `n` lines, in the order of the
/// file.
pub open spec fn newest_among(list: Seq<Line>, n: nat) -> Seq<Line>
    decreases n,
{
    if n == 0 {
        Seq::empty()
    } else {
        let before = newest_among(list, (n - 1) as nat);
        if newest(list, n - 1) {
            before.push(list[n - 1])
        } else {
            before
        }
    }
}

/// The newest line of each job, in the order of the file.
pub open spec fn newest_lines(list: Seq<Line>) -> Seq<Line> {
    newest_among(list, list.len())
}

/// Gives the newest line for each job.
pub fn load(entries: &Vec<Entry>) -> (r: Vec<Entry>)
    ensures
        lines(r@) == newest_lines(lines(entries@)),
{
    broadcast use vstd::std_specs::hash::group_hash_axioms;

    let ghost all = lines(entries@);
    let count: usize = entries.len();
    let mut seen: HashSet<u128> = HashSet::new();
    // The flags of the last lines, the last one first.
    let mut flags: Vec<bool> = Vec::new();
    let mut k: usize = count;
    while k > 0
        invariant
            k <= count,
            count == entries@.len(),
            all == lines(entries@),
            flags@.len() == count - k,
            forall|j: int| 0 <= j < flags@.len() ==> #[trigger] flags@[j] == newest(all, count - 1 - j),
            forall|x: u128| #[trigger]
                seen@.contains(x) <==> exists|j: int| k <= j < count && (#[trigger] all[j]).id == x,
        decreases k,
    {
        k -= 1;
        let id: u128 = entries[k].id;
        assert(all[k as int].id == id);
        let late = seen.contains(&id);
        assert(!late == newest(all, k as int));
        flags.push(!late);
        let ghost before = seen@;
        seen.insert(id);
        proof {
            assert forall|x: u128| #[trigger] seen@.contains(x) <==> exists|j: int|
                k <= j < count && (#[trigger] all[j]).id == x by {
                if before.contains(x) {
                    let j = choose|j: int| k < j < count && (#[trigger] all[j]).id == x;
                    assert(k <= j < count && all[j].id == x);
                }
            }
        }
    }
    let mut out: Vec<Entry> = Vec::new();
    let mut i: usize = 0;
    assert(lines(out@) == newest_among(all, 0));
    while i < count
        invariant
            i <= count,
            count == entries@.len(),
            all == lines(entries@),
            flags@.len() == count,
            forall|j: int| 0 <= j < flags@.len() ==> #[trigger] flags@[j] == newest(all, count - 1 - j),
            lines(out@) == newest_among(all, i as nat),
        decreases count - i,
    {
        let ghost before = out@;
        if flags[count - 1 - i] {
            out.push(entries[i].copy());
            assert(lines(out@) == lines(before).push(all[i as int]));
        }
        i += 1;
    }
    out
}

/// What the lines say about one job. The first line of the job gives its name
/// and its time, and each later line that records a removal gives the removal.
pub open spec fn known(list: Seq<Line>, id: u128) -> Option<Line>
    decreases list.len(),
{
    if list.len() == 0 {
        None
    } else {
        let earlier = known(list.drop_last(), id);
        let last = list.last();
        if last.id != id {
            earlier
        } else {
            match earlier {
                None => Some(last),
                Some(e) => if last.removed_at is Some {
                    Some(Line { removed_at: last.removed_at, final_state: last.final_state, ..e })
                } else {
                    Some(e)
                },
            }
        }
    }
}

/// Gives what the history knows about one job that has no record now.
///
/// The result joins the lines for that job, so a job that qex accepted and then
/// deleted gives one entry that holds both times.
pub fn lookup(entries: &Vec<Entry>, id: u128) -> (r: Option<Entry>)
    ensures
        match r {
            Some(e) => known(lines(entries@), id) == Some(e@),
            None => known(lines(entries@), id) is None,
        },
{
    let ghost all = lines(entries@);
    let mut found: Option<Entry> = None;
    let mut i: usize = 0;
    while i < entries.len()
        invariant
            i <= entries@.len(),
            all == lines(entries@),
            match found {
                Some(e) => known(all.take(i as int), id) == Some(e@),
                None => known(all.take(i as int), id) is None,
            },
        decreases entries@.len() - i,
    {
        assert(all.take(i + 1).drop_last() == all.take(i as int));
        assert(all[i as int] == entries@[i as int]@);
        if entries[i].id == id {
            found = match found {
                None => Some(entries[i].copy()),
                Some(e) => {
                    let mut earlier = e;
                    if entries[i].removed_at.is_some() {
                        earlier.removed_at = entries[i].removed_at;
                        earlier.final_state = job::copy_opt(&entries[i].final_state);
                    }
                    Some(earlier)
                },
            };
        }
        i += 1;
    }
    assert(all.take(all.len() as int) == all);
    found
}

/// The time from `at` to `now` in words, and 0 seconds where the clock moved
/// back.
pub open spec fn since_text(now: u64, at: u64) -> Seq<char> {
    units::duration_text(
        if now < at {
            0
        } else {
            (now - at) as nat
        },
    )
}

/// The message for a job that has no record now.
pub open spec fn missing_text(found: Option<Line>, id: u128, now: u64) -> Seq<char> {
    let word = ids::hyphenated(id as nat);
    match found {
        None => "there is no job with the id "@ + word
            + ", and qex has no record of one. Test the id, or submit the job."@,
        Some(e) => match e.removed_at {
            Some(when) => match e.final_state {
                Some(state) => "the job "@ + word + " ("@ + e.name
                    + ") existed and its state was `"@ + state
                    + "`. Something deleted its record "@ + since_text(now, when)
                    + " ago, with `qex clean` or by a deletion of the state directory. The work of that job HAPPENED. Do not submit it again unless you want to repeat the work."@,
                None => "the job "@ + word + " ("@ + e.name
                    + ") existed. Something deleted its record "@ + since_text(now, when)
                    + " ago. qex does not know how that job ended."@,
            },
            None => "the job "@ + word + " ("@ + e.name + ") existed, and qex accepted it "@
                + since_text(now, e.submitted_at)
                + " ago, but its record is gone and qex did not delete it. Something removed the state directory. The job may have run."@,
        },
    }
}

fn since(now: u64, at: u64) -> (r: String)
    ensures
        r@ == since_text(now, at),
{
    units::format_duration(
        if now < at {
            0
        } else {
            now - at
        },
    )
}

/// Writes a message for a job that has no record now. It tells an agent what to
/// do next.
pub fn describe_missing(entries: &Vec<Entry>, id: u128, now: u64) -> (r: String)
    ensures
        r@ == missing_text(known(lines(entries@), id), id, now),
{
    let word = ids::id_text(id);
    let entry = match lookup(entries, id) {
        Some(e) => e,
        None => {
            let mut m = text::owned("there is no job with the id ");
            m.append(word.as_str());
            m.append(", and qex has no record of one. Test the id, or submit the job.");
            return m;
        },
    };
    let mut m = text::owned("the job ");
    m.append(word.as_str());
    m.append(" (");
    m.append(entry.name.as_str());
    match entry.removed_at {
        Some(when) => match &entry.final_state {
            Some(state) => {
                m.append(") existed and its state was `");
                m.append(state.as_str());
                m.append("`. Something deleted its record ");
                m.append(since(now, when).as_str());
                m.append(
                    " ago, with `qex clean` or by a deletion of the state directory. The work of that job HAPPENED. Do not submit it again unless you want to repeat the work.",
                );
            },
            None => {
                m.append(") existed. Something deleted its record ");
                m.append(since(now, when).as_str());
                m.append(" ago. qex does not know how that job ended.");
            },
        },
        None => {
            m.append(") existed, and qex accepted it ");
            m.append(since(now, entry.submitted_at).as_str());
            m.append(
                " ago, but its record is gone and qex did not delete it. Something removed the state directory. The job may have run.",
            );
        },
    }
    m
}

/// True while the line is young. The later of its two times counts, so a line
/// that records a removal stays for its own period.
pub open spec fn young(e: Line, keep_for: u64, now: u64) -> bool {
    let at = match e.removed_at {
        Some(r) => if r > e.submitted_at {
            r
        } else {
            e.submitted_at
        },
        None => e.submitted_at,
    };
    now < at || now - at <= keep_for
}

/// The young lines.
pub open spec fn young_lines(list: Seq<Line>, keep_for: u64, now: u64) -> Seq<Line>
    decreases list.len(),
{
    if list.len() == 0 {
        Seq::empty()
    } else if young(list.last(), keep_for, now) {
        young_lines(list.drop_last(), keep_for, now).push(list.last())
    } else {
        young_lines(list.drop_last(), keep_for, now)
    }
}

/// The lines that stay: the young ones, and the last `MAX_LINES` of them where
/// there are more.
pub open spec fn staying(list: Seq<Line>, keep_for: u64, now: u64) -> Seq<Line> {
    let kept = young_lines(list, keep_for, now);
    if kept.len() <= MAX_LINES {
        kept
    } else {
        kept.skip(kept.len() - MAX_LINES)
    }
}

/// Gives the lines that stay, or `None` when every line does.
pub fn prune(entries: &Vec<Entry>, keep_for: u64, now: u64) -> (r: Option<Vec<Entry>>)
    ensures
        match r {
            Some(kept) => {
                &&& lines(kept@) == staying(lines(entries@), keep_for, now)
                &&& kept@.len() < entries@.len()
            },
            None => staying(lines(entries@), keep_for, now) == lines(entries@),
        },
{
    let ghost all = lines(entries@);
    let mut kept: Vec<Entry> = Vec::new();
    let mut i: usize = 0;
    while i < entries.len()
        invariant
            i <= entries@.len(),
            all == lines(entries@),
            lines(kept@) == young_lines(all.take(i as int), keep_for, now),
        decreases entries@.len() - i,
    {
        assert(all.take(i + 1).drop_last() == all.take(i as int));
        assert(all[i as int] == entries@[i as int]@);
        let e = &entries[i];
        let at: u64 = match e.removed_at {
            Some(r) => if r > e.submitted_at {
                r
            } else {
                e.submitted_at
            },
            None => e.submitted_at,
        };
        let ghost before = kept@;
        if now < at || now - at <= keep_for {
            kept.push(e.copy());
            assert(lines(kept@) == lines(before).push(all[i as int]));
        }
        i += 1;
    }
    assert(all.take(all.len() as int) == all);
    let start: usize = if kept.len() > MAX_LINES {
        kept.len() - MAX_LINES
    } else {
        0
    };
    let mut out: Vec<Entry> = Vec::new();
    let mut k: usize = start;
    while k < kept.len()
        invariant
            start <= k <= kept@.len(),
            lines(out@) == lines(kept@).subrange(start as int, k as int),
        decreases kept@.len() - k,
    {
        let ghost before = out@;
        out.push(kept[k].copy());
        assert(lines(out@) == lines(before).push(lines(kept@)[k as int]));
        assert(lines(kept@).subrange(start as int, k + 1) == lines(kept@).subrange(
            start as int,
            k as int,
        ).push(lines(kept@)[k as int]));
        k += 1;
    }
    proof {
        let y = young_lines(all, keep_for, now);
        assert(lines(kept@) == y);
        assert(y.subrange(start as int, y.len() as int) == staying(all, keep_for, now));
        lemma_young(all, keep_for, now);
        assert(lines(out@).len() == out@.len());
    }
    if out.len() == entries.len() {
        return None;
    }
    Some(out)
}

proof fn lemma_young(list: Seq<Line>, keep_for: u64, now: u64)
    ensures
        young_lines(list, keep_for, now).len() <= list.len(),
        young_lines(list, keep_for, now).len() == list.len() ==> young_lines(list, keep_for, now)
            == list,
    decreases list.len(),
{
    if list.len() > 0 {
        lemma_young(list.drop_last(), keep_for, now);
        if young_lines(list, keep_for, now).len() == list.len() {
            assert(list.drop_last().push(list.last()) == list);
        }
    }
}

proof fn lemma_young_holds(list: Seq<Line>, keep_for: u64, now: u64, e: Line)
    ensures
        young_lines(list, keep_for, now).contains(e) <==> list.contains(e) && young(
            e,
            keep_for,
            now,
        ),
    decreases list.len(),
{
    if list.len() > 0 {
        let rest = list.drop_last();
        lemma_young_holds(rest, keep_for, now, e);
        let before = young_lines(rest, keep_for, now);
        let after = young_lines(list, keep_for, now);
        assert(list.contains(e) <==> rest.contains(e) || e == list.last()) by {
            if list.contains(e) {
                let k = choose|k: int| 0 <= k < list.len() && list[k] == e;
                if k < rest.len() {
                    assert(rest[k] == e);
                }
            }
            if rest.contains(e) {
                let k = choose|k: int| 0 <= k < rest.len() && rest[k] == e;
                assert(list[k] == e);
            }
            assert(list[list.len() - 1] == list.last());
        }
        if young(list.last(), keep_for, now) {
            assert(after == before.push(list.last()));
            assert(after.contains(e) <==> before.contains(e) || e == list.last()) by {
                if after.contains(e) {
                    let k = choose|k: int| 0 <= k < after.len() && after[k] == e;
                    if k < before.len() {
                        assert(before[k] == e);
                    }
                }
                if before.contains(e) {
                    let k = choose|k: int| 0 <= k < before.len() && before[k] == e;
                    assert(after[k] == e);
                }
                assert(after[before.len() as int] == list.last());
            }
        }
    }
}

/// The history keeps young lines and no others, never more than its limit; and
/// where the limit does not operate it keeps every young line.
pub proof fn law_the_history_keeps_the_young_lines(
    list: Seq<Line>,
    keep_for: u64,
    now: u64,
    e: Line,
)
    ensures
        staying(list, keep_for, now).len() <= MAX_LINES,
        staying(list, keep_for, now).contains(e) ==> list.contains(e) && young(e, keep_for, now),
        young_lines(list, keep_for, now).len() <= MAX_LINES && list.contains(e) && young(
            e,
            keep_for,
            now,
        ) ==> staying(list, keep_for, now).contains(e),
{
    lemma_young_holds(list, keep_for, now, e);
    let kept = young_lines(list, keep_for, now);
    let stay = staying(list, keep_for, now);
    if stay.contains(e) && kept.len() > MAX_LINES {
        let k = choose|k: int| 0 <= k < stay.len() && stay[k] == e;
        assert(kept[k + (kept.len() - MAX_LINES)] == e);
    }
}

/// A job that qex accepted and whose record went gives one entry with both
/// facts, whatever lines of other jobs stand between.
pub proof fn law_a_removed_job_is_known(
    before: Seq<Line>,
    between: Seq<Line>,
    id: u128,
    name: Seq<char>,
    submitted_at: u64,
    status: JobStatus,
    now: u64,
)
    requires
        status.id == id,
        known(before, id) is None,
        forall|k: int| 0 <= k < between.len() ==> (#[trigger] between[k]).id != id,
    ensures
        known(
            (before.push(accepted(id, name, submitted_at)) + between).push(removed(status, now)),
            id,
        ) == Some(
            Line {
                id,
                name,
                submitted_at,
                removed_at: Some(now),
                final_state: Some(status.state.word()),
            },
        ),
{
    let first = before.push(accepted(id, name, submitted_at));
    assert(first.drop_last() == before);
    lemma_known_skips(first, between, id);
    let all = (first + between).push(removed(status, now));
    assert(all.drop_last() == first + between);
}

proof fn lemma_known_skips(list: Seq<Line>, others: Seq<Line>, id: u128)
    requires
        forall|k: int| 0 <= k < others.len() ==> (#[trigger] others[k]).id != id,
    ensures
        known(list + others, id) == known(list, id),
    decreases others.len(),
{
    if others.len() == 0 {
        assert(list + others == list);
    } else {
        assert((list + others).drop_last() == list + others.drop_last());
        assert((list + others).last() == others.last());
        assert(others[others.len() - 1].id != id);
        lemma_known_skips(list, others.drop_last(), id);
    }
}

/// The history has no entry exactly for an id that no line names.
pub proof fn law_no_entry_exactly_for_an_unknown_id(list: Seq<Line>, id: u128)
    ensures
        known(list, id) is None <==> forall|k: int|
            0 <= k < list.len() ==> (#[trigger] list[k]).id != id,
    decreases list.len(),
{
    if list.len() > 0 {
        law_no_entry_exactly_for_an_unknown_id(list.drop_last(), id);
        let rest = list.drop_last();
        if known(list, id) is None {
            assert forall|k: int| 0 <= k < list.len() implies (#[trigger] list[k]).id != id by {
                if k < rest.len() {
                    assert(rest[k].id != id);
                }
            }
        } else {
            if forall|k: int| 0 <= k < list.len() ==> (#[trigger] list[k]).id != id {
                assert forall|k: int| 0 <= k < rest.len() implies (#[trigger] rest[k]).id != id by {
                    assert(rest[k] == list[k]);
                }
                assert(list[list.len() - 1].id != id);
                assert(false);
            }
        }
    }
}

/// The last of the first `n` lines that is about the job.
pub open spec fn last_line(list: Seq<Line>, id: u128, n: nat) -> Option<Line>
    decreases n,
{
    if n == 0 {
        None
    } else if list[n - 1].id == id {
        Some(list[n - 1])
    } else {
        last_line(list, id, (n - 1) as nat)
    }
}

proof fn lemma_last_line(list: Seq<Line>, id: u128, n: nat, i: int)
    requires
        0 <= i < n <= list.len(),
        list[i].id == id,
        forall|j: int| i < j < n ==> (#[trigger] list[j]).id != id,
    ensures
        last_line(list, id, n) == Some(list[i]),
    decreases n,
{
    if i < n - 1 {
        assert(list[n - 1].id != id);
        lemma_last_line(list, id, (n - 1) as nat, i);
    }
}

/// The line is the newest one of its job, and one of the first `n` lines.
spec fn is_newest(list: Seq<Line>, n: nat, line: Line) -> bool {
    exists|i: int| 0 <= i < n && newest(list, i) && #[trigger] list[i] == line
}

proof fn lemma_newest_among(list: Seq<Line>, n: nat)
    requires
        n <= list.len(),
    ensures
        ({
            let kept = newest_among(list, n);
            &&& forall|k: int| 0 <= k < kept.len() ==> is_newest(list, n, #[trigger] kept[k])
            &&& forall|a: int, b: int|
                0 <= a < b < kept.len() ==> (#[trigger] kept[a]).id != (#[trigger] kept[b]).id
            &&& forall|i: int| 0 <= i < n && newest(list, i) ==> kept.contains(#[trigger] list[i])
        }),
    decreases n,
{
    if n > 0 {
        let before = newest_among(list, (n - 1) as nat);
        let kept = newest_among(list, n);
        lemma_newest_among(list, (n - 1) as nat);
        assert forall|k: int| 0 <= k < kept.len() implies is_newest(list, n, #[trigger] kept[k]) by {
            if k < before.len() {
                assert(kept[k] == before[k]);
                assert(is_newest(list, (n - 1) as nat, before[k]));
                let i = choose|i: int|
                    0 <= i < n - 1 && newest(list, i) && #[trigger] list[i] == before[k];
                assert(0 <= i < n && newest(list, i) && list[i] == kept[k]);
            } else {
                assert(list[n - 1] == kept[k]);
            }
        }
        assert forall|a: int, b: int| 0 <= a < b < kept.len() implies (#[trigger] kept[a]).id != (
        #[trigger] kept[b]).id by {
            assert(kept[a] == before[a]);
            if b < before.len() {
                assert(kept[b] == before[b]);
            } else {
                assert(is_newest(list, (n - 1) as nat, before[a]));
                let i = choose|i: int|
                    0 <= i < n - 1 && newest(list, i) && #[trigger] list[i] == before[a];
                assert(list[n - 1].id != list[i].id);
            }
        }
        assert forall|i: int| 0 <= i < n && newest(list, i) implies kept.contains(
            #[trigger] list[i],
        ) by {
            if i < n - 1 {
                assert(before.contains(list[i]));
                let k = choose|k: int| 0 <= k < before.len() && before[k] == list[i];
                assert(kept[k] == list[i]);
            } else {
                assert(kept[before.len() as int] == list[i]);
            }
        }
    }
}

proof fn lemma_a_line_is_newest(list: Seq<Line>, k: int) -> (i: int)
    requires
        0 <= k < list.len(),
    ensures
        k <= i < list.len(),
        list[i].id == list[k].id,
        newest(list, i),
    decreases list.len() - k,
{
    if newest(list, k) {
        k
    } else {
        let j = choose|j: int| k < j < list.len() && (#[trigger] list[j]).id == list[k].id;
        lemma_a_line_is_newest(list, j)
    }
}

/// The newest lines hold one line for each job of the file and no other, and it
/// is the last line of the file about that job.
pub proof fn law_one_line_for_each_job(list: Seq<Line>)
    ensures
        ({
            let kept = newest_lines(list);
            &&& forall|a: int, b: int|
                0 <= a < b < kept.len() ==> (#[trigger] kept[a]).id != (#[trigger] kept[b]).id
            &&& forall|k: int|
                0 <= k < kept.len() ==> last_line(
                    list,
                    (#[trigger] kept[k]).id,
                    list.len(),
                ) == Some(kept[k])
            &&& forall|k: int|
                0 <= k < list.len() ==> exists|j: int|
                    0 <= j < kept.len() && (#[trigger] kept[j]).id == (#[trigger] list[k]).id
        }),
{
    let kept = newest_lines(list);
    lemma_newest_among(list, list.len());
    assert forall|k: int| 0 <= k < kept.len() implies last_line(
        list,
        (#[trigger] kept[k]).id,
        list.len(),
    ) == Some(kept[k]) by {
        assert(is_newest(list, list.len(), kept[k]));
        let i = choose|i: int|
            0 <= i < list.len() && newest(list, i) && #[trigger] list[i] == kept[k];
        lemma_last_line(list, kept[k].id, list.len(), i);
    }
    assert forall|k: int| 0 <= k < list.len() implies exists|j: int|
        0 <= j < kept.len() && (#[trigger] kept[j]).id == (#[trigger] list[k]).id by {
        let i = lemma_a_line_is_newest(list, k);
        assert(kept.contains(list[i]));
        let j = choose|j: int| 0 <= j < kept.len() && kept[j] == list[i];
        assert(kept[j].id == list[k].id);
    }
}

/// The lines of each job agree about its name and its time, and no line of a
/// job that takes no note of a removal follows one that does.
pub open spec fn orderly(list: Seq<Line>) -> bool {
    forall|i: int, j: int|
        0 <= i < j < list.len() && (#[trigger] list[i]).id == (#[trigger] list[j]).id ==> {
            &&& list[i].name == list[j].name
            &&& list[i].submitted_at == list[j].submitted_at
            &&& list[j].removed_at is None ==> list[i].removed_at is None && list[i].final_state
                == list[j].final_state
        }
}

proof fn lemma_known_is_last(list: Seq<Line>, id: u128)
    requires
        orderly(list),
    ensures
        known(list, id) == last_line(list, id, list.len()),
        known(list, id) is Some ==> exists|i: int| 0 <= i < list.len() && #[trigger] list[i]
            == known(list, id)->0 && list[i].id == id,
    decreases list.len(),
{
    if list.len() > 0 {
        let rest = list.drop_last();
        let n = rest.len();
        assert(orderly(rest)) by {
            assert forall|i: int, j: int|
                0 <= i < j < rest.len() && (#[trigger] rest[i]).id == (#[trigger] rest[j]).id implies {
                &&& rest[i].name == rest[j].name
                &&& rest[i].submitted_at == rest[j].submitted_at
                &&& rest[j].removed_at is None ==> rest[i].removed_at is None && rest[i].final_state
                    == rest[j].final_state
            } by {
                assert(list[i].id == list[j].id);
            }
        }
        lemma_known_is_last(rest, id);
        lemma_last_line_of_rest(list, id, n);
        if known(rest, id) is Some {
            let i = choose|i: int|
                0 <= i < rest.len() && #[trigger] rest[i] == known(rest, id)->0 && rest[i].id == id;
            assert(list[i] == rest[i]);
            if list.last().id == id {
                assert(list[i].id == list[n as int].id);
            }
        }
        if list.last().id == id {
            assert(list[n as int] == list.last());
        }
    }
}

proof fn lemma_last_line_of_rest(list: Seq<Line>, id: u128, n: nat)
    requires
        n < list.len(),
    ensures
        last_line(list.drop_last(), id, n) == last_line(list, id, n),
    decreases n,
{
    if n > 0 {
        lemma_last_line_of_rest(list, id, (n - 1) as nat);
    }
}

proof fn lemma_known_alone(kept: Seq<Line>, id: u128, n: nat)
    requires
        n <= kept.len(),
        forall|a: int, b: int|
            0 <= a < b < kept.len() ==> (#[trigger] kept[a]).id != (#[trigger] kept[b]).id,
    ensures
        known(kept.take(n as int), id) == last_line(kept, id, n),
        last_line(kept, id, n) is Some ==> exists|k: int|
            0 <= k < n && (#[trigger] kept[k]).id == id && last_line(kept, id, n) == Some(kept[k]),
    decreases n,
{
    if n > 0 {
        lemma_known_alone(kept, id, (n - 1) as nat);
        assert(kept.take(n as int).drop_last() == kept.take(n - 1));
        assert(kept.take(n as int).last() == kept[n - 1]);
        if kept[n - 1].id == id && last_line(kept, id, (n - 1) as nat) is Some {
            let k = choose|k: int| 0 <= k < n - 1 && (#[trigger] kept[k]).id == id;
            assert(kept[k].id != kept[n - 1].id);
        }
        if last_line(kept, id, n) is Some && kept[n - 1].id != id {
            let k = choose|k: int|
                0 <= k < n - 1 && (#[trigger] kept[k]).id == id && last_line(
                    kept,
                    id,
                    (n - 1) as nat,
                ) == Some(kept[k]);
            assert(kept[k].id == id && last_line(kept, id, n) == Some(kept[k]));
        }
    }
}

/// The newest lines answer every question that the whole history answers: what
/// they say about a job is what all the lines of the job say together.
pub proof fn law_the_newest_lines_answer(list: Seq<Line>, id: u128)
    requires
        orderly(list),
    ensures
        known(newest_lines(list), id) == known(list, id),
{
    let kept = newest_lines(list);
    law_one_line_for_each_job(list);
    lemma_known_is_last(list, id);
    lemma_known_alone(kept, id, kept.len());
    assert(kept.take(kept.len() as int) == kept);
    if last_line(kept, id, kept.len()) is Some {
        let k = choose|k: int|
            0 <= k < kept.len() && (#[trigger] kept[k]).id == id && last_line(
                kept,
                id,
                kept.len(),
            ) == Some(kept[k]);
        assert(last_line(list, kept[k].id, list.len()) == Some(kept[k]));
    } else {
        if known(list, id) is Some {
            let i = choose|i: int|
                0 <= i < list.len() && #[trigger] list[i] == known(list, id)->0 && list[i].id == id;
            let j = choose|j: int| 0 <= j < kept.len() && (#[trigger] kept[j]).id == list[i].id;
            lemma_no_last_line(kept, id, kept.len(), j);
        }
    }
}

proof fn lemma_no_last_line(list: Seq<Line>, id: u128, n: nat, j: int)
    requires
        0 <= j < n <= list.len(),
        list[j].id == id,
    ensures
        last_line(list, id, n) is Some,
    decreases n,
{
    if list[n - 1].id != id {
        lemma_no_last_line(list, id, (n - 1) as nat, j);
    }
}

/// One more line about a job: a job that was unknown is known by it, and a line
/// that says when a known job was removed adds just that. No other line changes
/// what is known.
pub proof fn law_one_more_line_about_a_job(list: Seq<Line>, line: Line, id: u128)
    ensures
        line.id != id ==> known(list.push(line), id) == known(list, id),
        line.id == id && known(list, id) is None ==> known(list.push(line), id) == Some(line),
        line.id == id && known(list, id) is Some ==> ({
            let before = known(list, id)->0;
            let after = known(list.push(line), id)->0;
            &&& known(list.push(line), id) is Some
            &&& after.id == before.id && after.name == before.name && after.submitted_at
                == before.submitted_at
            &&& line.removed_at is Some ==> after.removed_at == line.removed_at
                && after.final_state == line.final_state
            &&& line.removed_at is None ==> after == before
        }),
        known(Seq::empty(), id) is None,
{
    assert(list.push(line).drop_last() == list);
}

/// A line stays while the job was accepted or removed no longer ago than the
/// limit. The later moment of the two decides.
pub proof fn law_which_lines_are_young(e: Line, keep_for: u64, now: u64)
    ensures
        young(e, keep_for, now) <==> now <= e.submitted_at + keep_for || (e.removed_at is Some
            && now <= e.removed_at->0 + keep_for),
{
}

/// One more line is among the young ones, behind the others, exactly where it is
/// young.
pub proof fn law_one_more_young_line(list: Seq<Line>, e: Line, keep_for: u64, now: u64)
    ensures
        young_lines(list.push(e), keep_for, now) == if young(e, keep_for, now) {
            young_lines(list, keep_for, now).push(e)
        } else {
            young_lines(list, keep_for, now)
        },
        young_lines(Seq::empty(), keep_for, now).len() == 0,
{
    assert(list.push(e).drop_last() == list);
}

/// A cleaned history has the last 20000 of its young lines, or all of them, and
/// nothing is written where every line stays.
pub proof fn law_what_a_cleaned_history_holds(
    entries: &Vec<Entry>,
    keep_for: u64,
    now: u64,
    r: Option<Vec<Entry>>,
)
    requires
        call_ensures(prune, (entries, keep_for, now), r),
    ensures
        ({
            let fresh = young_lines(lines(entries@), keep_for, now);
            let kept = if r is Some {
                lines(r->0@)
            } else {
                lines(entries@)
            };
            &&& kept.len() <= 20000
            &&& kept.len() == fresh.len() || kept.len() == 20000
            &&& forall|i: int|
                0 <= i < kept.len() ==> #[trigger] kept[i] == fresh[fresh.len() - kept.len() + i]
        }),
{
}

/// A job is found exactly where a line of the history is about it, and with its
/// own id.
pub proof fn law_which_jobs_are_found(entries: &Vec<Entry>, id: u128, r: Option<Entry>)
    requires
        call_ensures(lookup, (entries, id), r),
    ensures
        r is Some <==> exists|k: int| 0 <= k < entries@.len() && (#[trigger] entries@[k]).id == id,
        r is Some ==> r->0.id == id,
{
    let list = lines(entries@);
    law_no_entry_exactly_for_an_unknown_id(list, id);
    assert forall|k: int| 0 <= k < list.len() implies (#[trigger] list[k]).id == entries@[k].id by {}
    if r is Some {
        let k = choose|k: int| 0 <= k < list.len() && (#[trigger] list[k]).id == id;
        assert(entries@[k].id == id);
        lemma_known_id(list, id);
    }
    if exists|k: int| 0 <= k < entries@.len() && (#[trigger] entries@[k]).id == id {
        let k = choose|k: int| 0 <= k < entries@.len() && (#[trigger] entries@[k]).id == id;
        assert(list[k].id == id);
    }
}

proof fn lemma_known_id(list: Seq<Line>, id: u128)
    ensures
        known(list, id) is Some ==> known(list, id)->0.id == id,
    decreases list.len(),
{
    if list.len() > 0 {
        lemma_known_id(list.drop_last(), id);
    }
}

/// The line of a submission says who was accepted and when, and the line of a
/// removal adds when the record went and how the job ended.
pub proof fn law_what_the_lines_say(
    id: u128,
    name: &str,
    submitted_at: u64,
    a: Entry,
    status: &JobStatus,
    now: u64,
    b: Entry,
)
    requires
        call_ensures(record_submit_for, (id, name, submitted_at), a),
        call_ensures(record_removed, (status, now), b),
    ensures
        a.id == id && a.name@ == name@ && a.submitted_at == submitted_at && a.removed_at is None
            && a.final_state is None,
        b.id == status.id && b.name@ == status.name@ && b.submitted_at == status.submitted_at,
        b.removed_at == Some(now),
        b.final_state is Some && b.final_state->0@ == status.state.word(),
{
    assert(a@.final_state is None);
    assert(b@.final_state is Some);
}

/// The answer about a missing job names it. It says that the work happened only
/// where the history says how the job ended, and that there is no such job only
/// where no line is about it.
pub proof fn law_the_answer_about_a_missing_job(
    entries: &Vec<Entry>,
    id: u128,
    now: u64,
    r: String,
)
    requires
        call_ensures(describe_missing, (entries, id, now), r),
    ensures
        known(lines(entries@), id) is None ==> text::begins(
            r@,
            "there is no job with the id "@ + ids::hyphenated(id as nat),
        ),
        known(lines(entries@), id) is Some ==> text::begins(
            r@,
            "the job "@ + ids::hyphenated(id as nat) + " ("@ + known(lines(entries@), id)->0.name
                + ") existed"@,
        ),
{
    let word = ids::hyphenated(id as nat);
    match known(lines(entries@), id) {
        None => {
            let want = "there is no job with the id "@ + word;
            assert(r@.subrange(0, want.len() as int) == want);
        },
        Some(e) => {
            reveal_strlit(") existed");
            reveal_strlit(") existed and its state was `");
            reveal_strlit(") existed. Something deleted its record ");
            reveal_strlit(") existed, and qex accepted it ");
            let start = "the job "@ + word + " ("@ + e.name;
            let want = start + ") existed"@;
            assert(") existed and its state was `"@.take(9) == ") existed"@);
            assert(") existed. Something deleted its record "@.take(9) == ") existed"@);
            assert(") existed, and qex accepted it "@.take(9) == ") existed"@);
            assert(r@.subrange(0, want.len() as int) == want);
        },
    }
}

/// A read history has one line for each job, and it is the newest one.
pub proof fn law_what_a_read_history_holds(entries: &Vec<Entry>, r: Vec<Entry>, k: int)
    requires
        call_ensures(load, (entries,), r),
        0 <= k < r@.len(),
    ensures
        forall|j: int| 0 <= j < r@.len() && j != k ==> (#[trigger] r@[j]).id != r@[k].id,
        exists|i: int|
            0 <= i < entries@.len() && entries@[i]@ == r@[k]@ && forall|j: int|
                i < j < entries@.len() ==> (#[trigger] entries@[j]).id != (
                #[trigger] entries@[i]).id,
{
    let list = lines(entries@);
    let kept = newest_lines(list);
    assert forall|i: int| 0 <= i < list.len() implies #[trigger] list[i] == entries@[i]@ by {}
    assert forall|i: int| 0 <= i < kept.len() implies #[trigger] kept[i] == r@[i]@ by {}
    law_one_line_for_each_job(list);
    assert forall|j: int| 0 <= j < r@.len() && j != k implies (#[trigger] r@[j]).id != r@[k].id by {
        if j < k {
            assert(kept[j].id != kept[k].id);
        } else {
            assert(kept[k].id != kept[j].id);
        }
        assert(kept[j] == r@[j]@);
    }
    assert(last_line(list, kept[k].id, list.len()) == Some(kept[k]));
    lemma_last_line_place(list, kept[k].id, list.len());
    let i = choose|i: int|
        0 <= i < list.len() && #[trigger] list[i] == kept[k] && forall|j: int|
            i < j < list.len() ==> (#[trigger] list[j]).id != kept[k].id;
    assert forall|j: int| i < j < entries@.len() implies (#[trigger] entries@[j]).id
        != entries@[i].id by {
        assert(list[j].id != kept[k].id);
    }
    assert(entries@[i]@ == r@[k]@);
}

proof fn lemma_last_line_place(list: Seq<Line>, id: u128, n: nat)
    requires
        n <= list.len(),
        last_line(list, id, n) is Some,
    ensures
        exists|i: int|
            0 <= i < n && #[trigger] list[i] == last_line(list, id, n)->0 && forall|j: int|
                i < j < n ==> (#[trigger] list[j]).id != id,
    decreases n,
{
    if list[n - 1].id == id {
        assert(list[n - 1] == last_line(list, id, n)->0);
    } else {
        lemma_last_line_place(list, id, (n - 1) as nat);
        let i = choose|i: int|
            0 <= i < n - 1 && #[trigger] list[i] == last_line(list, id, (n - 1) as nat)->0
                && forall|j: int| i < j < n - 1 ==> (#[trigger] list[j]).id != id;
        assert(list[i] == last_line(list, id, n)->0);
    }
}

} // verus!

//! What a person paused.
//!
//! A pause is a set of requests. No request changes or removes a different
//! request: the queue is paused while at least one request stands, and each
//! request ends only by its own end or by a resume that names it.

use crate::ids;
use crate::job::Ancestor;
use crate::text;
use vstd::prelude::*;
use vstd::string::*;

verus! {

/// One pause request: when it was made, who made it, and when it ends.
#[derive(Debug, Clone, PartialEq, Eq)]
pub struct PauseRecord {
    /// The name of this request. The coordinator makes it, and the answer of
    /// `qex pause` gives it to the caller as a receipt.
    ///
    /// A record of an earlier version of qex has none. `Paused::normalize`
    /// gives it one.
    pub id: String,
    /// The moment of the request, in seconds since the epoch.
    pub paused_at: u64,
    /// The process id that the CLI reported for itself.
    ///
    /// NOBODY VERIFIED THIS NUMBER, and no default output shows it. It is a
    /// number in the pid namespace of the caller. `issuer_chain` is what qex
    /// reads.
    pub by_pid: i32,
    /// The text that the person gave with `--reason`.
    pub reason: Option<String>,
    /// The moment when the request ends by itself. `None` means that the
    /// request has no end.
    pub until: Option<u64>,
    /// True when qex made this request because it could not read the file.
    ///
    /// No person asked for such a pause, so each message about it must say
    /// what happened and must not say that a person paused the queue.
    pub fault: bool,
    /// The processes above the command that asked, as the coordinator read
    /// them. `None` says that qex could not learn who asked.
    pub issuer_chain: Option<Vec<Ancestor>>,
    /// The pid namespace in which `issuer_chain` was read.
    pub issuer_ns: Option<String>,
}

/// The id of the request that qex makes when it cannot read the file.
///
/// It is a fixed word, because that request is made again at each read, and
/// the id that one command printed must name the request that the next
/// command finds.
pub const FAULT_ID: &'static str = "fault";

impl PauseRecord {
    /// True when the request reached its end.
    pub open spec fn ended(self, now: nat) -> bool {
        self.until matches Some(end) && now >= end
    }

    /// Makes a request of this moment.
    pub fn new(by_pid: i32, reason: Option<String>, until: Option<u64>, now: u64) -> (r: Self)
        ensures
            r == (PauseRecord {
                id: r.id,
                paused_at: now,
                by_pid,
                reason,
                until,
                fault: false,
                issuer_chain: None,
                issuer_ns: None,
            }),
            ids::short_word(r.id@),
    {
        PauseRecord {
            id: ids::new_id(&Vec::new()),
            paused_at: now,
            by_pid,
            reason,
            until,
            fault: false,
            issuer_chain: None,
            issuer_ns: None,
        }
    }

    /// Tests if this request reached its end.
    pub fn expired(&self, now: u64) -> (r: bool)
        ensures
            r == self.ended(now as nat),
    {
        match self.until {
            Some(end) => now >= end,
            None => false,
        }
    }
}

/// The end of a pause of the queue: the last request of the set went away.
#[derive(Debug, Clone, Copy, PartialEq, Eq, Structural)]
pub struct QueueEnd {
    /// The moment when the queue stopped running.
    pub since: u64,
    /// The moment when the last request ended.
    pub ended_at: u64,
}

/// One record or a list of records.
///
/// An earlier version of qex wrote ONE record for the queue and one for each
/// lock. A coordinator that replaces that version must keep the pause that the
/// file holds, so it reads both forms.
#[derive(Debug)]
pub enum OneOrMany {
    Many(Vec<PauseRecord>),
    One(Box<PauseRecord>),
}

impl OneOrMany {
    /// The records as a list.
    pub fn list(self) -> (r: Vec<PauseRecord>)
        ensures
            r@ == (match self {
                OneOrMany::Many(list) => list@,
                OneOrMany::One(record) => seq![*record],
            }),
    {
        match self {
            OneOrMany::Many(list) => list,
            OneOrMany::One(record) => {
                let mut list: Vec<PauseRecord> = Vec::new();
                list.push(*record);
                list
            },
        }
    }
}

/// The requests for one lock.
#[derive(Debug, Clone, PartialEq, Eq)]
pub struct LockPause {
    pub name: String,
    pub requests: Vec<PauseRecord>,
}

/// Everything that a person paused.
#[derive(Debug, Clone, PartialEq, Eq)]
pub struct Paused {
    /// The requests that pause the whole queue. A paused queue starts no job.
    pub queue: Vec<PauseRecord>,
    /// The moment when the queue stopped running: the time of the FIRST
    /// request of this unbroken pause. A request that ended since then does
    /// not move it.
    pub queue_since: Option<u64>,
    /// The locks that a person holds, in the order of their names.
    pub locks: Vec<LockPause>,
    /// Says that this set holds an id that the file does not hold yet.
    pub id_not_in_the_file: bool,
}

impl Default for Paused {
    fn default() -> (r: Self)
        ensures
            r.queue@.len() == 0,
            r.queue_since is None,
            r.locks@.len() == 0,
            !r.id_not_in_the_file,
            r.wf(),
            r.normal(),
    {
        let r = Paused {
            queue: Vec::new(),
            queue_since: None,
            locks: Vec::new(),
            id_not_in_the_file: false,
        };
        assert(r.requests() == Seq::<PauseRecord>::empty());
        r
    }
}

/// What `Paused::expire` did.
#[derive(Debug, Clone, Copy, PartialEq, Eq, Structural)]
pub struct Expired {
    pub changed: bool,
    pub queue_end: Option<QueueEnd>,
}

/// The requests of all the locks of a list.
pub open spec fn flat(locks: Seq<LockPause>) -> Seq<PauseRecord>
    decreases locks.len(),
{
    if locks.len() == 0 {
        Seq::empty()
    } else {
        flat(locks.drop_last()) + locks.last().requests@
    }
}

/// The ids of a list of requests.
pub open spec fn ids_of(list: Seq<PauseRecord>) -> Seq<Seq<char>> {
    list.map_values(|r: PauseRecord| r.id@)
}

/// No two requests of the list have one id, except for an empty one.
pub open spec fn distinct(list: Seq<PauseRecord>) -> bool {
    forall|i: int, j: int|
        0 <= i < j < list.len() && (#[trigger] list[i]).id@ == (#[trigger] list[j]).id@
            ==> list[i].id@.len() == 0
}

/// Each request of the list has an id.
pub open spec fn all_named(list: Seq<PauseRecord>) -> bool {
    forall|i: int| 0 <= i < list.len() ==> (#[trigger] list[i]).id@.len() > 0
}

/// The second list holds the requests of the first one. A request that had an
/// id is unchanged, and each other one got an id and nothing else.
pub open spec fn given_ids(a: Seq<PauseRecord>, b: Seq<PauseRecord>) -> bool {
    &&& a.len() == b.len()
    &&& all_named(b)
    &&& forall|i: int|
        0 <= i < a.len() ==> if a[i].id@.len() > 0 {
            #[trigger] b[i] == a[i]
        } else {
            b[i] == (PauseRecord { id: b[i].id, ..a[i] })
        }
}

/// Each request of the first list that had no id and has one in the second list
/// has an id there that no other request of the second list has.
pub open spec fn new_ids_differ(a: Seq<PauseRecord>, b: Seq<PauseRecord>) -> bool {
    forall|i: int, j: int|
        0 <= i < b.len() && 0 <= j < b.len() && i != j && a[i].id@.len() == 0
            && b[i].id@.len() > 0 ==> (#[trigger] b[i]).id@ != (#[trigger] b[j]).id@
}

/// The earliest moment of the first `n` requests of a list.
pub open spec fn earliest(list: Seq<PauseRecord>, n: nat) -> Option<u64>
    decreases n,
{
    if n == 0 {
        None
    } else {
        match earliest(list, (n - 1) as nat) {
            None => Some(list[n - 1].paused_at),
            Some(t) => Some(
                if list[n - 1].paused_at < t {
                    list[n - 1].paused_at
                } else {
                    t
                },
            ),
        }
    }
}

/// The latest end of the requests of a list that reached their ends.
pub open spec fn latest_end(list: Seq<PauseRecord>, now: nat) -> Option<u64>
    decreases list.len(),
{
    if list.len() == 0 {
        None
    } else {
        let before = latest_end(list.drop_last(), now);
        if list.last().ended(now) {
            match before {
                Some(t) => Some(
                    if list.last().until->0 < t {
                        t
                    } else {
                        list.last().until->0
                    },
                ),
                None => Some(list.last().until->0),
            }
        } else {
            before
        }
    }
}

/// The entries of the list whose flag is `want`, in their order.
pub open spec fn flagged(list: Seq<PauseRecord>, flags: Seq<bool>, want: bool) -> Seq<PauseRecord>
    decreases list.len(),
{
    if list.len() == 0 {
        Seq::empty()
    } else {
        let before = flagged(list.drop_last(), flags, want);
        if flags[list.len() - 1] == want {
            before.push(list.last())
        } else {
            before
        }
    }
}

/// The flags of the requests that reached their ends.
pub open spec fn ended_flags(list: Seq<PauseRecord>, now: nat) -> Seq<bool> {
    list.map_values(|r: PauseRecord| r.ended(now))
}

/// The requests that stand after the moment `now`.
pub open spec fn standing(list: Seq<PauseRecord>, now: nat) -> Seq<PauseRecord> {
    flagged(list, ended_flags(list, now), false)
}

/// The flags of the requests that qex made because of a fault.
pub open spec fn fault_flags(list: Seq<PauseRecord>) -> Seq<bool> {
    list.map_values(|r: PauseRecord| r.fault)
}

/// The requests of persons.
pub open spec fn without_fault(list: Seq<PauseRecord>) -> Seq<PauseRecord> {
    flagged(list, fault_flags(list), false)
}

/// The locks that at least one request holds.
pub open spec fn nonempty(locks: Seq<LockPause>) -> Seq<LockPause>
    decreases locks.len(),
{
    if locks.len() == 0 {
        Seq::empty()
    } else {
        let before = nonempty(locks.drop_last());
        if locks.last().requests@.len() > 0 {
            before.push(locks.last())
        } else {
            before
        }
    }
}

/// The second list has the locks of the first one, and each of their requests
/// has an id.
pub open spec fn locks_given_ids(a: Seq<LockPause>, b: Seq<LockPause>) -> bool {
    &&& a.len() == b.len()
    &&& forall|i: int|
        0 <= i < a.len() ==> (#[trigger] b[i]).name == a[i].name && given_ids(
            a[i].requests@,
            b[i].requests@,
        )
}

/// The second list has the locks of the first one, each with the requests that
/// stand after `now`.
pub open spec fn locks_standing(a: Seq<LockPause>, b: Seq<LockPause>, now: nat) -> bool {
    &&& a.len() == b.len()
    &&& forall|i: int|
        0 <= i < a.len() ==> (#[trigger] b[i]).name == a[i].name && b[i].requests@ == standing(
            a[i].requests@,
            now,
        )
}

/// The names of the locks are in order, so no name occurs two times.
pub open spec fn in_name_order(locks: Seq<LockPause>) -> bool {
    forall|i: int, j: int|
        0 <= i < j < locks.len() ==> text::before(
            (#[trigger] locks[i]).name@,
            (#[trigger] locks[j]).name@,
        )
}

/// The requests for the lock `name` in a list of locks.
pub open spec fn requests_for(locks: Seq<LockPause>, name: Seq<char>) -> Seq<PauseRecord>
    decreases locks.len(),
{
    if locks.len() == 0 {
        Seq::empty()
    } else if locks.last().name@ == name {
        locks.last().requests@
    } else {
        requests_for(locks.drop_last(), name)
    }
}

impl Paused {
    /// Every request of the set.
    pub open spec fn requests(self) -> Seq<PauseRecord> {
        self.queue@ + flat(self.locks@)
    }

    /// The locks are in the order of their names.
    pub open spec fn wf(self) -> bool {
        in_name_order(self.locks@)
    }

    /// The correct form of a set: each request has an id, no lock has an empty
    /// list, and the moment when the queue stopped is known
    /// exactly while the queue is paused.
    pub open spec fn normal(self) -> bool {
        &&& all_named(self.requests())
        &&& forall|i: int|
            0 <= i < self.locks@.len() ==> (#[trigger] self.locks@[i]).requests@.len() > 0
        &&& self.queue_since is Some <==> self.queue@.len() > 0
    }

    /// The moment when the queue stopped running.
    pub open spec fn stopped_at(self) -> Option<u64> {
        stopped_with(self.queue_since, self.queue@)
    }
}

/// The moment when the queue stopped running, for a list of requests and the
/// moment that was kept for it.
pub open spec fn stopped_with(since: Option<u64>, list: Seq<PauseRecord>) -> Option<u64> {
    if list.len() == 0 {
        None
    } else if since is Some {
        since
    } else {
        earliest(list, list.len())
    }
}

proof fn lemma_flat_concat(a: Seq<LockPause>, b: Seq<LockPause>)
    ensures
        flat(a + b) == flat(a) + flat(b),
    decreases b.len(),
{
    if b.len() == 0 {
        assert(a + b == a);
        assert(flat(a) + flat(b) == flat(a));
    } else {
        assert((a + b).drop_last() == a + b.drop_last());
        lemma_flat_concat(a, b.drop_last());
        assert(flat(a + b) == flat(a) + flat(b));
    }
}

proof fn lemma_flat_split(locks: Seq<LockPause>, m: int)
    requires
        0 <= m < locks.len(),
    ensures
        flat(locks) == flat(locks.take(m)) + locks[m].requests@ + flat(locks.skip(m + 1)),
{
    assert(locks == locks.take(m + 1) + locks.skip(m + 1));
    lemma_flat_concat(locks.take(m + 1), locks.skip(m + 1));
    assert(locks.take(m + 1).drop_last() == locks.take(m));
}

proof fn lemma_flat_nonempty(locks: Seq<LockPause>)
    ensures
        flat(nonempty(locks)) == flat(locks),
    decreases locks.len(),
{
    if locks.len() > 0 {
        lemma_flat_nonempty(locks.drop_last());
        if locks.last().requests@.len() > 0 {
            assert(nonempty(locks).drop_last() == nonempty(locks.drop_last()));
        } else {
            assert(flat(locks) == flat(locks.drop_last()));
        }
    }
}

proof fn lemma_nonempty(locks: Seq<LockPause>)
    ensures
        forall|i: int|
            0 <= i < nonempty(locks).len() ==> (#[trigger] nonempty(locks)[i]).requests@.len() > 0
                && locks.contains(nonempty(locks)[i]),
        nonempty(locks).len() <= locks.len(),
        in_name_order(locks) ==> in_name_order(nonempty(locks)),
    decreases locks.len(),
{
    if locks.len() > 0 {
        lemma_nonempty(locks.drop_last());
        let before = nonempty(locks.drop_last());
        assert forall|i: int| 0 <= i < before.len() implies locks.contains(#[trigger] before[i]) by {
            assert(locks.drop_last().contains(before[i]));
            let k = choose|k: int|
                0 <= k < locks.drop_last().len() && locks.drop_last()[k] == before[i];
            assert(locks[k] == before[i]);
        }
        assert(locks[locks.len() - 1] == locks.last());
        if in_name_order(locks) {
            assert(in_name_order(locks.drop_last()));
            let all = nonempty(locks);
            assert forall|i: int, j: int| 0 <= i < j < all.len() implies text::before(
                (#[trigger] all[i]).name@,
                (#[trigger] all[j]).name@,
            ) by {
                if j < before.len() {
                    assert(text::before(before[i].name@, before[j].name@));
                } else {
                    assert(locks.drop_last().contains(before[i]));
                    let k = choose|k: int|
                        0 <= k < locks.drop_last().len() && locks.drop_last()[k] == before[i];
                    assert(text::before(locks[k].name@, locks[locks.len() - 1].name@));
                }
            }
        }
    }
}

/// The ids that `give_ids` gave: none of them is in `taken`, and no two of
/// them are equal.
spec fn fresh_ids(
    a: Seq<PauseRecord>,
    b: Seq<PauseRecord>,
    taken: Seq<Seq<char>>,
) -> bool {
    &&& forall|i: int|
        0 <= i < a.len() && (#[trigger] a[i]).id@.len() == 0 ==> !taken.contains(b[i].id@)
    &&& forall|i: int, j: int|
        0 <= i < j < a.len() && (#[trigger] a[i]).id@.len() == 0 && (#[trigger] a[j]).id@.len() == 0
            ==> b[i].id@ != b[j].id@
}

/// Each id of the list that is not empty is in `taken`.
spec fn covered(list: Seq<PauseRecord>, taken: Seq<Seq<char>>) -> bool {
    forall|i: int|
        0 <= i < list.len() && (#[trigger] list[i]).id@.len() > 0 ==> taken.contains(list[i].id@)
}

proof fn lemma_splice(
    all: Seq<PauseRecord>,
    a: Seq<PauseRecord>,
    b: Seq<PauseRecord>,
    b2: Seq<PauseRecord>,
    c: Seq<PauseRecord>,
    taken: Seq<Seq<char>>,
)
    requires
        all.len() == a.len() + b.len() + c.len(),
        all.subrange(a.len() as int, (a.len() + b.len()) as int) == b,
        new_ids_differ(all, a + b + c),
        covered(a + b + c, taken),
        given_ids(b, b2),
        fresh_ids(b, b2, taken),
    ensures
        new_ids_differ(all, a + b2 + c),
{
    let x = a + b + c;
    let y = a + b2 + c;
    assert forall|i: int, j: int|
        0 <= i < y.len() && 0 <= j < y.len() && i != j && all[i].id@.len() == 0 && y[i].id@.len()
            > 0 implies (#[trigger] y[i]).id@ != (#[trigger] y[j]).id@ by {
        let in_i = a.len() <= i < a.len() + b.len();
        let in_j = a.len() <= j < a.len() + b.len();
        let bi = b[i - a.len()];
        let bj = b[j - a.len()];
        if in_i {
            assert(all.subrange(a.len() as int, (a.len() + b.len()) as int)[i - a.len()] == all[i]);
            assert(!taken.contains(b2[i - a.len()].id@));
            if in_j && bj.id@.len() == 0 {
                if i < j {
                    assert(bi.id@.len() == 0 && bj.id@.len() == 0);
                    assert(b2[i - a.len()].id@ != b2[j - a.len()].id@);
                } else {
                    assert(bi.id@.len() == 0 && bj.id@.len() == 0);
                    assert(b2[j - a.len()].id@ != b2[i - a.len()].id@);
                }
            } else {
                if in_j {
                    assert(b2[j - a.len()] == bj);
                }
                assert(x[j] == y[j]);
                if y[j].id@.len() > 0 {
                    assert(taken.contains(x[j].id@));
                }
            }
        } else {
            assert(x[i] == y[i]);
            if in_j && bj.id@.len() == 0 {
                assert(!taken.contains(b2[j - a.len()].id@));
                assert(taken.contains(x[i].id@));
            } else {
                if in_j {
                    assert(b2[j - a.len()] == bj);
                }
                assert(x[j] == y[j]);
                assert(x[i].id@ != x[j].id@);
            }
        }
    }
}

/// Where the ids of a list were different, they stay so.
proof fn lemma_distinct(a: Seq<PauseRecord>, b: Seq<PauseRecord>)
    requires
        given_ids(a, b),
        new_ids_differ(a, b),
        distinct(a),
    ensures
        distinct(b),
{
    assert forall|i: int, j: int|
        0 <= i < j < b.len() && (#[trigger] b[i]).id@ == (#[trigger] b[j]).id@ implies b[i].id@.len()
        == 0 by {
        if a[i].id@.len() > 0 && a[j].id@.len() > 0 {
            assert(b[i] == a[i] && b[j] == a[j]);
        } else if a[i].id@.len() == 0 {
            assert(b[i].id@ != b[j].id@);
        } else {
            assert(b[j].id@ != b[i].id@);
        }
    }
}

/// Gives an id to each request of the list that has none. The result is true
/// when there was such a request.
fn give_ids(list: &mut Vec<PauseRecord>, taken: &mut Vec<String>) -> (r: bool)
    ensures
        given_ids(old(list)@, final(list)@),
        r == !all_named(old(list)@),
        fresh_ids(old(list)@, final(list)@, text::views(old(taken)@)),
        forall|x: Seq<char>|
            text::views(old(taken)@).contains(x) ==> #[trigger] text::views(final(taken)@).contains(
                x,
            ),
        covered(old(list)@, text::views(old(taken)@)) ==> covered(
            final(list)@,
            text::views(final(taken)@),
        ),
{
    let ghost a = list@;
    let ghost t0 = text::views(taken@);
    let mut gave = false;
    let mut i: usize = 0;
    while i < list.len()
        invariant
            i <= list@.len(),
            list@.len() == a.len(),
            forall|k: int| i <= k < a.len() ==> #[trigger] list@[k] == a[k],
            forall|k: int| 0 <= k < i ==> (#[trigger] list@[k]).id@.len() > 0,
            forall|k: int|
                0 <= k < i ==> if a[k].id@.len() > 0 {
                    #[trigger] list@[k] == a[k]
                } else {
                    list@[k] == (PauseRecord { id: list@[k].id, ..a[k] })
                },
            gave == (exists|k: int| 0 <= k < i && (#[trigger] a[k]).id@.len() == 0),
            forall|x: Seq<char>| t0.contains(x) ==> #[trigger] text::views(taken@).contains(x),
            forall|k: int|
                0 <= k < i && (#[trigger] a[k]).id@.len() == 0 ==> !t0.contains(list@[k].id@)
                    && text::views(taken@).contains(list@[k].id@),
            forall|k: int, l: int|
                0 <= k < l < i && (#[trigger] a[k]).id@.len() == 0 && (#[trigger] a[l]).id@.len()
                    == 0 ==> list@[k].id@ != list@[l].id@,
        decreases list@.len() - i,
    {
        if list[i].id.as_str().is_empty() {
            assert(a[i as int].id@.len() == 0);
            let id = ids::new_id(taken);
            let ghost before = text::views(taken@);
            taken.push(id.clone());
            assert(text::views(taken@) == before.push(id@));
            assert forall|x: Seq<char>| before.contains(x) implies #[trigger] text::views(
                taken@,
            ).contains(x) by {
                let k = choose|k: int| 0 <= k < before.len() && before[k] == x;
                assert(text::views(taken@)[k] == x);
            }
            assert(text::views(taken@)[before.len() as int] == id@);
            list[i].id = id;
            gave = true;
        } else {
            assert(a[i as int].id@.len() > 0);
        }
        i += 1;
    }
    proof {
        if covered(a, t0) {
            assert forall|k: int|
                0 <= k < list@.len() && (#[trigger] list@[k]).id@.len() > 0 implies text::views(
                taken@,
            ).contains(list@[k].id@) by {
                if a[k].id@.len() > 0 {
                    assert(t0.contains(a[k].id@));
                }
            }
        }
    }
    gave
}

/// Parts a list by its flags: the entries that go, and the entries that stay.
fn part(list: Vec<PauseRecord>, flags: &Vec<bool>) -> (r: (Vec<PauseRecord>, Vec<PauseRecord>))
    requires
        flags@.len() == list@.len(),
    ensures
        r.0@ == flagged(list@, flags@, true),
        r.1@ == flagged(list@, flags@, false),
{
    let ghost all = list@;
    let mut rest = list;
    let mut gone: Vec<PauseRecord> = Vec::new();
    let mut kept: Vec<PauseRecord> = Vec::new();
    let mut i: usize = 0;
    assert(all.skip(0) == all);
    while rest.len() > 0
        invariant
            i <= all.len(),
            rest@ == all.skip(i as int),
            flags.len() == all.len(),
            gone@ == flagged(all.take(i as int), flags@, true),
            kept@ == flagged(all.take(i as int), flags@, false),
        decreases rest@.len(),
    {
        let record = rest.remove(0);
        assert(record == all[i as int]);
        assert(all.take(i + 1).drop_last() == all.take(i as int));
        assert(rest@ == all.skip(i + 1));
        if flags[i] {
            gone.push(record);
        } else {
            kept.push(record);
        }
        i += 1;
    }
    assert(all.take(all.len() as int) == all);
    (gone, kept)
}

fn flags_of_ended(list: &Vec<PauseRecord>, now: u64) -> (r: Vec<bool>)
    ensures
        r@ == ended_flags(list@, now as nat),
{
    let mut out: Vec<bool> = Vec::new();
    let mut i: usize = 0;
    while i < list.len()
        invariant
            i <= list@.len(),
            out@ == ended_flags(list@, now as nat).take(i as int),
        decreases list@.len() - i,
    {
        out.push(list[i].expired(now));
        assert(ended_flags(list@, now as nat).take(i + 1) == ended_flags(list@, now as nat).take(
            i as int,
        ).push(list@[i as int].ended(now as nat)));
        i += 1;
    }
    assert(ended_flags(list@, now as nat).take(list@.len() as int) == ended_flags(
        list@,
        now as nat,
    ));
    out
}

proof fn lemma_flagged_len(list: Seq<PauseRecord>, flags: Seq<bool>, want: bool)
    requires
        flags.len() >= list.len(),
    ensures
        flagged(list, flags, want).len() <= list.len(),
        flagged(list, flags, want).len() == list.len() <==> forall|i: int|
            0 <= i < list.len() ==> #[trigger] flags[i] == want,
        flagged(list, flags, want).len() == 0 <==> forall|i: int|
            0 <= i < list.len() ==> #[trigger] flags[i] != want,
        flagged(list, flags, true).len() + flagged(list, flags, false).len() == list.len(),
    decreases list.len(),
{
    if list.len() > 0 {
        lemma_flagged_len(list.drop_last(), flags, want);
        assert(flags[list.len() - 1] == want || flags[list.len() - 1] != want);
        if flagged(list, flags, want).len() == list.len() {
            assert forall|i: int| 0 <= i < list.len() implies #[trigger] flags[i] == want by {
                if i < list.len() - 1 {
                    assert(flagged(list.drop_last(), flags, want).len() == list.len() - 1);
                }
            }
        }
    }
}

proof fn lemma_earliest(list: Seq<PauseRecord>, n: nat)
    requires
        n <= list.len(),
    ensures
        earliest(list, n) is Some <==> n > 0,
        earliest(list, n) matches Some(t) ==> forall|i: int|
            0 <= i < n ==> t <= (#[trigger] list[i]).paused_at,
    decreases n,
{
    if n > 0 {
        lemma_earliest(list, (n - 1) as nat);
    }
}

proof fn lemma_requests_for(locks: Seq<LockPause>, name: Seq<char>)
    ensures
        requests_for(locks, name).len() > 0 ==> exists|i: int|
            0 <= i < locks.len() && (#[trigger] locks[i]).name@ == name,
        in_name_order(locks) ==> forall|i: int|
            0 <= i < locks.len() && (#[trigger] locks[i]).name@ == name ==> requests_for(
                locks,
                name,
            ) == locks[i].requests@,
    decreases locks.len(),
{
    if locks.len() > 0 {
        let less = locks.drop_last();
        lemma_requests_for(less, name);
        if locks.last().name@ == name {
            assert(locks[locks.len() - 1].name@ == name);
            if in_name_order(locks) {
                assert forall|i: int| 0 <= i < locks.len() && (#[trigger] locks[i]).name@ == name implies requests_for(
                    locks,
                    name,
                ) == locks[i].requests@ by {
                    if i < locks.len() - 1 {
                        assert(text::before(locks[i].name@, locks[locks.len() - 1].name@));
                        text::lemma_before_total(name, name);
                    }
                }
            }
        } else {
            if requests_for(locks, name).len() > 0 {
                let k = choose|k: int| 0 <= k < less.len() && (#[trigger] less[k]).name@ == name;
                assert(locks[k].name@ == name);
            }
            if in_name_order(locks) {
                assert(in_name_order(less));
                assert forall|i: int| 0 <= i < locks.len() && (#[trigger] locks[i]).name@ == name implies requests_for(
                    locks,
                    name,
                ) == locks[i].requests@ by {
                    assert(less[i].name@ == name);
                }
            }
        }
    }
}

/// The second list is the first one with another entry at `m`, for the lock
/// `name`: the entry that had the name, or a new one where no entry had it.
/// Every other entry is as it was.
pub open spec fn one_lock_changed(
    a: Seq<LockPause>,
    b: Seq<LockPause>,
    m: int,
    name: Seq<char>,
) -> bool {
    &&& 0 <= m <= a.len()
    &&& b[m].name@ == name
    &&& if m < a.len() && a[m].name@ == name {
        b == a.update(m, b[m])
    } else {
        b == a.insert(m, b[m]) && forall|k: int|
            0 <= k < a.len() ==> (#[trigger] a[k]).name@ != name
    }
}

proof fn lemma_other_requests(
    a: Seq<LockPause>,
    b: Seq<LockPause>,
    m: int,
    name: Seq<char>,
    other: Seq<char>,
)
    requires
        one_lock_changed(a, b, m, name),
        other != name,
    ensures
        requests_for(b, other) == requests_for(a, other),
    decreases a.len(),
{
    if m == a.len() {
        assert(b.drop_last() == a);
        assert(b.last() == b[m]);
    } else if a[m].name@ == name {
        if m == a.len() - 1 {
            assert(b.drop_last() == a.drop_last());
            assert(b.last() == b[m]);
        } else {
            assert(b.last() == a.last());
            assert(b.drop_last() == a.drop_last().update(m, b[m]));
            lemma_other_requests(a.drop_last(), b.drop_last(), m, name, other);
        }
    } else {
        assert(b.last() == a.last());
        assert(b.drop_last() == a.drop_last().insert(m, b[m]));
        assert forall|k: int| 0 <= k < a.drop_last().len() implies (#[trigger] a.drop_last()[k]).name@
            != name by {
            assert(a[k].name@ != name);
        }
        lemma_other_requests(a.drop_last(), b.drop_last(), m, name, other);
    }
}

impl Paused {
    /// Tests if nothing is paused.
    pub fn is_empty(&self) -> (r: bool)
        ensures
            r == (self.queue@.len() == 0 && self.locks@.len() == 0),
    {
        self.queue.len() == 0 && self.locks.len() == 0
    }

    /// True while at least one request for the queue stands.
    pub fn queue_paused(&self) -> (r: bool)
        ensures
            r == (self.queue@.len() > 0),
    {
        self.queue.len() > 0
    }

    /// Gives the moment when the queue stopped running.
    pub fn since(&self) -> (r: Option<u64>)
        ensures
            r == self.stopped_at(),
    {
        if self.queue.len() == 0 {
            return None;
        }
        if self.queue_since.is_some() {
            return self.queue_since;
        }
        let mut first: Option<u64> = None;
        let mut i: usize = 0;
        while i < self.queue.len()
            invariant
                i <= self.queue@.len(),
                first == earliest(self.queue@, i as nat),
            decreases self.queue@.len() - i,
        {
            let at: u64 = self.queue[i].paused_at;
            first = match first {
                None => Some(at),
                Some(t) => Some(
                    if at < t {
                        at
                    } else {
                        t
                    },
                ),
            };
            i += 1;
        }
        first
    }

    /// Gives every id of the set, so a new id differs from each.
    pub fn ids(&self) -> (r: Vec<String>)
        ensures
            text::views(r@) == ids_of(self.requests()),
    {
        let mut out: Vec<String> = Vec::new();
        push_ids(&mut out, &self.queue);
        assert(text::views(Seq::<String>::empty()) + ids_of(self.queue@) == ids_of(self.queue@));
        let mut m: usize = 0;
        assert(ids_of(self.queue@) + ids_of(flat(self.locks@.take(0))) == ids_of(self.queue@));
        while m < self.locks.len()
            invariant
                m <= self.locks@.len(),
                text::views(out@) == ids_of(self.queue@) + ids_of(flat(self.locks@.take(m as int))),
            decreases self.locks@.len() - m,
        {
            let ghost before = text::views(out@);
            push_ids(&mut out, &self.locks[m].requests);
            proof {
                let more = self.locks@.take(m + 1);
                assert(more.drop_last() == self.locks@.take(m as int));
                assert(ids_of(flat(more)) == ids_of(flat(more.drop_last())) + ids_of(
                    self.locks@[m as int].requests@,
                ));
                assert(before + ids_of(self.locks@[m as int].requests@) == ids_of(self.queue@)
                    + ids_of(flat(more)));
            }
            m += 1;
        }
        assert(self.locks@.take(self.locks@.len() as int) == self.locks@);
        assert(ids_of(self.requests()) == ids_of(self.queue@) + ids_of(flat(self.locks@)));
        out
    }

    /// Gives the target that the request `id` stands for: `Some(None)` is the
    /// queue, `Some(Some(name))` is a lock, and `None` says that no request
    /// with this id stands.
    pub fn home_of(&self, id: &str) -> (r: Option<Option<String>>)
        ensures
            match r {
                Some(None) => ids_of(self.queue@).contains(id@),
                Some(Some(name)) => !ids_of(self.queue@).contains(id@) && exists|m: int|
                    0 <= m < self.locks@.len() && name@ == (#[trigger] self.locks@[m]).name@
                        && ids_of(self.locks@[m].requests@).contains(id@) && forall|k: int|
                        0 <= k < m ==> !ids_of((#[trigger] self.locks@[k]).requests@).contains(id@),
                None => !ids_of(self.requests()).contains(id@),
            },
    {
        if has_id(&self.queue, id) {
            return Some(None);
        }
        let mut m: usize = 0;
        while m < self.locks.len()
            invariant
                m <= self.locks@.len(),
                !ids_of(self.queue@).contains(id@),
                forall|k: int|
                    0 <= k < m ==> !ids_of((#[trigger] self.locks@[k]).requests@).contains(id@),
                !ids_of(flat(self.locks@.take(m as int))).contains(id@),
            decreases self.locks@.len() - m,
        {
            if has_id(&self.locks[m].requests, id) {
                return Some(Some(self.locks[m].name.clone()));
            }
            proof {
                let less = flat(self.locks@.take(m as int));
                let here = self.locks@[m as int].requests@;
                let more = self.locks@.take(m + 1);
                assert(more.drop_last() == self.locks@.take(m as int));
                assert forall|i: int| 0 <= i < ids_of(less + here).len() implies ids_of(
                    less + here,
                )[i] != id@ by {
                    if i < less.len() {
                        assert(ids_of(less)[i] == ids_of(less + here)[i]);
                    } else {
                        assert(ids_of(here)[i - less.len()] == ids_of(less + here)[i]);
                    }
                }
            }
            m += 1;
        }
        proof {
            assert(self.locks@.take(self.locks@.len() as int) == self.locks@);
            let all = self.requests();
            assert forall|i: int| 0 <= i < ids_of(all).len() implies ids_of(all)[i] != id@ by {
                if i < self.queue@.len() {
                    assert(ids_of(self.queue@)[i] == ids_of(all)[i]);
                } else {
                    assert(ids_of(flat(self.locks@))[i - self.queue@.len()] == ids_of(all)[i]);
                }
            }
        }
        None
    }

    /// Puts the set in its correct form after a read or a change: each request
    /// has an id, no lock has an empty list, and `queue_since` is set exactly
    /// while the queue is paused. The result is true when a request got an id.
    pub fn normalize(&mut self) -> (r: bool)
        requires
            old(self).wf(),
        ensures
            given_ids(old(self).queue@, final(self).queue@),
            exists|mid: Seq<LockPause>| #[trigger]
                locks_given_ids(old(self).locks@, mid) && final(self).locks@ == nonempty(mid),
            given_ids(old(self).requests(), final(self).requests()),
            new_ids_differ(old(self).requests(), final(self).requests()),
            distinct(old(self).requests()) ==> distinct(final(self).requests()),
            final(self).queue_since == old(self).stopped_at(),
            final(self).id_not_in_the_file == old(self).id_not_in_the_file,
            r == !all_named(old(self).requests()),
            final(self).wf(),
            final(self).normal(),
    {
        let mut taken = self.ids();
        let ghost old_queue = self.queue@;
        let ghost old_locks = self.locks@;
        let ghost all = self.requests();
        let ghost since = self.stopped_at();
        let ghost t0 = text::views(taken@);
        proof {
            assert forall|i: int| 0 <= i < all.len() && (#[trigger] all[i]).id@.len() > 0 implies t0.contains(
                all[i].id@,
            ) by {
                assert(ids_of(all)[i] == all[i].id@);
            }
            assert(Seq::<PauseRecord>::empty() + old_queue + flat(old_locks) == all);
            lemma_covered_parts(Seq::empty(), old_queue, flat(old_locks), t0);
        }
        let mut gave = give_ids(&mut self.queue, &mut taken);
        proof {
            assert(all.subrange(0, old_queue.len() as int) == old_queue);
            lemma_splice(all, Seq::empty(), old_queue, self.queue@, flat(old_locks), t0);
            assert(Seq::<PauseRecord>::empty() + self.queue@ + flat(old_locks) == self.queue@ + flat(
                old_locks,
            ));
            lemma_covered_more(flat(old_locks), t0, text::views(taken@));
            lemma_covered_concat(self.queue@, flat(old_locks), text::views(taken@));
            lemma_given_concat(old_queue, self.queue@, Seq::empty(), Seq::empty());
        }
        let mut m: usize = 0;
        assert(old_locks.skip(0) == old_locks);
        assert(flat(self.locks@.take(0)) == Seq::<PauseRecord>::empty());
        assert(flat(old_locks.take(0)) == Seq::<PauseRecord>::empty());
        while m < self.locks.len()
            invariant
                m <= self.locks@.len(),
                self.locks@.len() == old_locks.len(),
                self.queue_since == old(self).queue_since,
                self.id_not_in_the_file == old(self).id_not_in_the_file,
                given_ids(old_queue, self.queue@),
                forall|k: int|
                    0 <= k < m ==> (#[trigger] self.locks@[k]).name == old_locks[k].name
                        && given_ids(old_locks[k].requests@, self.locks@[k].requests@),
                forall|k: int| m <= k < old_locks.len() ==> #[trigger] self.locks@[k] == old_locks[k],
                all == old_queue + flat(old_locks),
                new_ids_differ(all, self.queue@ + flat(self.locks@)),
                covered(self.queue@ + flat(self.locks@), text::views(taken@)),
                given_ids(flat(old_locks.take(m as int)), flat(self.locks@.take(m as int))),
                gave == (!all_named(old_queue) || !all_named(flat(old_locks.take(m as int)))),
            decreases self.locks@.len() - m,
        {
            let ghost before = self.locks@;
            let ghost taken_before = text::views(taken@);
            let ghost a = self.queue@ + flat(before.take(m as int));
            let ghost b = before[m as int].requests@;
            let ghost c = flat(before.skip(m + 1));
            proof {
                lemma_flat_split(before, m as int);
                assert(self.queue@ + flat(before) == a + b + c);
                lemma_covered_parts(a, b, c, taken_before);
            }
            let more = give_ids(&mut self.locks[m].requests, &mut taken);
            proof {
                let b2 = self.locks@[m as int].requests@;
                lemma_flat_split(self.locks@, m as int);
                assert(self.locks@.take(m as int) == before.take(m as int));
                assert(self.locks@.skip(m + 1) == before.skip(m + 1));
                assert(self.queue@ + flat(self.locks@) == a + b2 + c);
                lemma_flat_split(old_locks, m as int);
                assert(before.skip(m + 1) == old_locks.skip(m + 1));
                assert(all == old_queue + flat(old_locks.take(m as int)) + b + c);
                assert(all.subrange(a.len() as int, (a.len() + b.len()) as int) == b);
                lemma_splice(all, a, b, b2, c, taken_before);
                lemma_covered_more(a, taken_before, text::views(taken@));
                lemma_covered_more(c, taken_before, text::views(taken@));
                lemma_covered_concat(a, b2, text::views(taken@));
                lemma_covered_concat(a + b2, c, text::views(taken@));
                assert(old_locks.take(m + 1).drop_last() == old_locks.take(m as int));
                assert(self.locks@.take(m + 1).drop_last() == self.locks@.take(m as int));
                lemma_given_concat(
                    flat(old_locks.take(m as int)),
                    flat(self.locks@.take(m as int)),
                    b,
                    b2,
                );
                lemma_named_concat(flat(old_locks.take(m as int)), b);
            }
            if more {
                gave = true;
            }
            m += 1;
        }
        let ghost mid = self.locks@;
        proof {
            assert(old_locks.take(old_locks.len() as int) == old_locks);
            assert(mid.take(mid.len() as int) == mid);
            lemma_named_concat(old_queue, flat(old_locks));
            lemma_given_concat(old_queue, self.queue@, flat(old_locks), flat(mid));
            assert(locks_given_ids(old_locks, mid));
            if distinct(all) {
                lemma_distinct(all, self.queue@ + flat(mid));
            }
        }
        self.drop_empty();
        proof {
            lemma_flat_nonempty(mid);
            lemma_nonempty(mid);
            assert(in_name_order(mid)) by {
                assert forall|i: int, j: int| 0 <= i < j < mid.len() implies text::before(
                    (#[trigger] mid[i]).name@,
                    (#[trigger] mid[j]).name@,
                ) by {
                    assert(text::before(old_locks[i].name@, old_locks[j].name@));
                }
            }
            lemma_earliest_given(old_queue, self.queue@, old_queue.len());
            lemma_earliest(old_queue, old_queue.len());
        }
        self.queue_since = self.since();
        gave
    }

    /// Removes the locks that no request holds.
    fn drop_empty(&mut self)
        ensures
            *final(self) == (Paused { locks: final(self).locks, ..*old(self) }),
            final(self).locks@ == nonempty(old(self).locks@),
    {
        let ghost all = self.locks@;
        let mut kept: Vec<LockPause> = Vec::new();
        let ghost mut n: int = 0;
        assert(all.skip(0) == all);
        while self.locks.len() > 0
            invariant
                0 <= n <= all.len(),
                self.locks@ == all.skip(n),
                kept@ == nonempty(all.take(n)),
                *self == (Paused { locks: self.locks, ..*old(self) }),
            decreases self.locks@.len(),
        {
            let lock = self.locks.remove(0);
            assert(lock == all[n]);
            assert(self.locks@ == all.skip(n + 1));
            assert(all.take(n + 1).drop_last() == all.take(n));
            if lock.requests.len() > 0 {
                kept.push(lock);
            }
            proof {
                n = n + 1;
            }
        }
        assert(all.take(all.len() as int) == all);
        self.locks = kept;
    }

    /// Adds a request for the queue. Gives `true` when this request moved the
    /// queue from running to paused.
    ///
    /// A request that qex made because it could not read the file is not a
    /// request of a person. A real request replaces it: the new file that
    /// this change writes is a file that qex can read.
    ///
    /// The fault request HELD the queue, so the request that replaces it did
    /// not stop the queue: the answer is `false`, and `queue_since` stays at
    /// the moment of the fault.
    pub fn add_queue(&mut self, record: PauseRecord) -> (r: bool)
        ensures
            r == (old(self).queue@.len() == 0),
            final(self).queue@ == without_fault(old(self).queue@).push(
                PauseRecord { id: final(self).queue@.last().id, ..record },
            ),
            final(self).queue@.last().id@.len() >= 8,
            (without_fault(old(self).queue@) + flat(old(self).locks@)).len() < ids::WORDS
                ==> ids::short_word(final(self).queue@.last().id@),
            !ids_of(without_fault(old(self).queue@) + flat(old(self).locks@)).contains(
                final(self).queue@.last().id@,
            ),
            final(self).queue_since == (if old(self).queue@.len() == 0 {
                Some(record.paused_at)
            } else {
                old(self).queue_since
            }),
            final(self).locks == old(self).locks,
            final(self).id_not_in_the_file == old(self).id_not_in_the_file,
    {
        let created = self.queue.len() == 0;
        let flags = flags_of_fault(&self.queue);
        let ghost queue = self.queue@;
        let mut list: Vec<PauseRecord> = Vec::new();
        std::mem::swap(&mut list, &mut self.queue);
        let (_, kept) = part(list, &flags);
        self.queue = kept;
        if created {
            self.queue_since = Some(record.paused_at);
        }
        let id = ids::new_id(&self.ids());
        let mut record = record;
        record.id = id;
        self.queue.push(record);
        created
    }

    /// Adds a request for one lock. Gives `true` when nobody held the lock for
    /// a person before.
    pub fn add_lock(&mut self, name: &str, record: PauseRecord) -> (r: bool)
        requires
            old(self).wf(),
        ensures
            final(self).wf(),
            r == (requests_for(old(self).locks@, name@).len() == 0),
            final(self).queue == old(self).queue,
            final(self).queue_since == old(self).queue_since,
            final(self).id_not_in_the_file == old(self).id_not_in_the_file,
            exists|m: int|
                0 <= m < final(self).locks@.len() && (#[trigger] final(self).locks@[m]).name@
                    == name@ && ({
                    let list = final(self).locks@[m].requests@;
                    &&& list == requests_for(old(self).locks@, name@).push(
                        PauseRecord { id: list.last().id, ..record },
                    )
                    &&& list.last().id@.len() >= 8
                    &&& old(self).requests().len() < ids::WORDS ==> ids::short_word(
                        list.last().id@,
                    )
                    &&& !ids_of(old(self).requests()).contains(list.last().id@)
                    &&& one_lock_changed(old(self).locks@, final(self).locks@, m, name@)
                }),
            forall|other: Seq<char>|
                other != name@ ==> #[trigger] requests_for(final(self).locks@, other)
                    == requests_for(old(self).locks@, other),
    {
        let id = ids::new_id(&self.ids());
        let ghost before = self.locks@;
        let mut record = record;
        record.id = id;
        let ghost given = record;
        let mut m: usize = 0;
        while m < self.locks.len() && text::is_before(self.locks[m].name.as_str(), name)
            invariant
                m <= self.locks@.len(),
                self.locks@ == before,
                *self == *old(self),
                forall|k: int| 0 <= k < m ==> text::before((#[trigger] self.locks@[k]).name@, name@),
            decreases self.locks@.len() - m,
        {
            m += 1;
        }
        proof {
            lemma_requests_for(before, name@);
            assert forall|k: int| 0 <= k < m implies (#[trigger] before[k]).name@ != name@ by {
                text::lemma_before_total(name@, name@);
            }
            if m < before.len() {
                text::lemma_before_total(before[m as int].name@, name@);
                assert forall|k: int| m < k < before.len() implies text::before(
                    name@,
                    (#[trigger] before[k]).name@,
                ) && before[k].name@ != name@ by {
                    assert(text::before(before[m as int].name@, before[k].name@));
                    if before[m as int].name@ != name@ {
                        text::lemma_before_chain(name@, before[m as int].name@, before[k].name@);
                    }
                    text::lemma_before_total(name@, name@);
                }
            }
        }
        if m < self.locks.len() && text::same(self.locks[m].name.as_str(), name) {
            let created = self.locks[m].requests.len() == 0;
            self.locks[m].requests.push(record);
            proof {
                assert(self.locks@ == before.update(m as int, self.locks@[m as int]));
                assert(self.locks@[m as int].name@ == name@);
                assert forall|other: Seq<char>| other != name@ implies #[trigger] requests_for(
                    self.locks@,
                    other,
                ) == requests_for(before, other) by {
                    lemma_other_requests(before, self.locks@, m as int, name@, other);
                }
            }
            created
        } else {
            let mut list: Vec<PauseRecord> = Vec::new();
            list.push(record);
            self.locks.insert(m, LockPause { name: text::owned(name), requests: list });
            proof {
                if requests_for(before, name@).len() > 0 {
                    let k = choose|k: int|
                        0 <= k < before.len() && (#[trigger] before[k]).name@ == name@;
                    assert(k == m);
                }
                assert(requests_for(before, name@) == Seq::<PauseRecord>::empty());
                assert(self.locks@[m as int].name@ == name@);
                assert(self.locks@ == before.insert(m as int, self.locks@[m as int]));
                assert forall|k: int| 0 <= k < before.len() implies (#[trigger] before[k]).name@
                    != name@ by {}
                assert forall|other: Seq<char>| other != name@ implies #[trigger] requests_for(
                    self.locks@,
                    other,
                ) == requests_for(before, other) by {
                    lemma_other_requests(before, self.locks@, m as int, name@, other);
                }
                let list = self.locks@[m as int].requests@;
                assert(list == requests_for(before, name@).push(given));
                assert forall|i: int, j: int| 0 <= i < j < self.locks@.len() implies text::before(
                    (#[trigger] self.locks@[i]).name@,
                    (#[trigger] self.locks@[j]).name@,
                ) by {
                    if i == m {
                        if j == m + 1 {
                            assert(before[m as int].name@ != name@);
                        }
                    } else if j == m {
                    } else if i < m && j < m {
                        assert(text::before(before[i].name@, before[j].name@));
                    } else if i < m {
                        assert(text::before(before[i].name@, before[j - 1].name@));
                    } else {
                        assert(text::before(before[i - 1].name@, before[j - 1].name@));
                    }
                }
            }
            true
        }
    }
}

/// Adds the ids of a list of requests.
fn push_ids(out: &mut Vec<String>, list: &Vec<PauseRecord>)
    ensures
        text::views(final(out)@) == text::views(old(out)@) + ids_of(list@),
{
    let ghost start = text::views(out@);
    let mut i: usize = 0;
    assert(start + ids_of(list@).take(0) == start);
    while i < list.len()
        invariant
            i <= list@.len(),
            text::views(out@) == start + ids_of(list@).take(i as int),
        decreases list@.len() - i,
    {
        let ghost before = text::views(out@);
        out.push(list[i].id.clone());
        assert(text::views(out@) == before.push(list@[i as int].id@));
        assert(ids_of(list@).take(i + 1) == ids_of(list@).take(i as int).push(list@[i as int].id@));
        assert(before.push(list@[i as int].id@) == start + ids_of(list@).take(i + 1));
        i += 1;
    }
    assert(ids_of(list@).take(list@.len() as int) == ids_of(list@));
}

/// Tests if a request of the list has the id.
fn has_id(list: &Vec<PauseRecord>, id: &str) -> (r: bool)
    ensures
        r == ids_of(list@).contains(id@),
{
    let mut i: usize = 0;
    while i < list.len()
        invariant
            i <= list@.len(),
            forall|k: int| 0 <= k < i ==> (#[trigger] list@[k]).id@ != id@,
        decreases list@.len() - i,
    {
        if text::same(list[i].id.as_str(), id) {
            assert(ids_of(list@)[i as int] == id@);
            return true;
        }
        i += 1;
    }
    assert forall|k: int| 0 <= k < ids_of(list@).len() implies ids_of(list@)[k] != id@ by {
        assert(ids_of(list@)[k] == list@[k].id@);
    }
    false
}

fn flags_of_fault(list: &Vec<PauseRecord>) -> (r: Vec<bool>)
    ensures
        r@ == fault_flags(list@),
{
    let mut out: Vec<bool> = Vec::new();
    let mut i: usize = 0;
    while i < list.len()
        invariant
            i <= list@.len(),
            out@ == fault_flags(list@).take(i as int),
        decreases list@.len() - i,
    {
        out.push(list[i].fault);
        assert(fault_flags(list@).take(i + 1) == fault_flags(list@).take(i as int).push(
            list@[i as int].fault,
        ));
        i += 1;
    }
    assert(fault_flags(list@).take(list@.len() as int) == fault_flags(list@));
    out
}

proof fn lemma_covered_parts(
    a: Seq<PauseRecord>,
    b: Seq<PauseRecord>,
    c: Seq<PauseRecord>,
    taken: Seq<Seq<char>>,
)
    requires
        covered(a + b + c, taken),
    ensures
        covered(a, taken),
        covered(b, taken),
        covered(c, taken),
{
    let x = a + b + c;
    assert forall|i: int| 0 <= i < a.len() && (#[trigger] a[i]).id@.len() > 0 implies taken.contains(
        a[i].id@,
    ) by {
        assert(x[i] == a[i]);
    }
    assert forall|i: int| 0 <= i < b.len() && (#[trigger] b[i]).id@.len() > 0 implies taken.contains(
        b[i].id@,
    ) by {
        assert(x[a.len() + i] == b[i]);
    }
    assert forall|i: int| 0 <= i < c.len() && (#[trigger] c[i]).id@.len() > 0 implies taken.contains(
        c[i].id@,
    ) by {
        assert(x[a.len() + b.len() + i] == c[i]);
    }
}

proof fn lemma_covered_more(a: Seq<PauseRecord>, less: Seq<Seq<char>>, more: Seq<Seq<char>>)
    requires
        covered(a, less),
        forall|x: Seq<char>| less.contains(x) ==> #[trigger] more.contains(x),
    ensures
        covered(a, more),
{
}

proof fn lemma_covered_concat(a: Seq<PauseRecord>, b: Seq<PauseRecord>, taken: Seq<Seq<char>>)
    requires
        covered(a, taken),
        covered(b, taken),
    ensures
        covered(a + b, taken),
{
    let x = a + b;
    assert forall|i: int| 0 <= i < x.len() && (#[trigger] x[i]).id@.len() > 0 implies taken.contains(
        x[i].id@,
    ) by {
        if i < a.len() {
            assert(x[i] == a[i]);
        } else {
            assert(x[i] == b[i - a.len()]);
        }
    }
}

proof fn lemma_given_concat(
    a: Seq<PauseRecord>,
    a2: Seq<PauseRecord>,
    b: Seq<PauseRecord>,
    b2: Seq<PauseRecord>,
)
    requires
        given_ids(a, a2),
        given_ids(b, b2),
    ensures
        given_ids(a + b, a2 + b2),
{
    let x = a + b;
    let y = a2 + b2;
    assert forall|i: int| 0 <= i < y.len() implies (#[trigger] y[i]).id@.len() > 0 by {
        if i < a.len() {
            assert(y[i] == a2[i]);
        } else {
            assert(y[i] == b2[i - a.len()]);
        }
    }
    assert forall|i: int| 0 <= i < x.len() implies if x[i].id@.len() > 0 {
        #[trigger] y[i] == x[i]
    } else {
        y[i] == (PauseRecord { id: y[i].id, ..x[i] })
    } by {
        if i < a.len() {
            assert(y[i] == a2[i] && x[i] == a[i]);
        } else {
            assert(y[i] == b2[i - a.len()] && x[i] == b[i - a.len()]);
        }
    }
}

proof fn lemma_named_concat(a: Seq<PauseRecord>, b: Seq<PauseRecord>)
    ensures
        all_named(a + b) <==> all_named(a) && all_named(b),
{
    let x = a + b;
    if all_named(x) {
        assert forall|i: int| 0 <= i < a.len() implies (#[trigger] a[i]).id@.len() > 0 by {
            assert(x[i] == a[i]);
        }
        assert forall|i: int| 0 <= i < b.len() implies (#[trigger] b[i]).id@.len() > 0 by {
            assert(x[a.len() + i] == b[i]);
        }
    }
    if all_named(a) && all_named(b) {
        assert forall|i: int| 0 <= i < x.len() implies (#[trigger] x[i]).id@.len() > 0 by {
            if i < a.len() {
                assert(x[i] == a[i]);
            } else {
                assert(x[i] == b[i - a.len()]);
            }
        }
    }
}

proof fn lemma_earliest_given(a: Seq<PauseRecord>, b: Seq<PauseRecord>, n: nat)
    requires
        given_ids(a, b),
        n <= a.len(),
    ensures
        earliest(a, n) == earliest(b, n),
    decreases n,
{
    if n > 0 {
        lemma_earliest_given(a, b, (n - 1) as nat);
        assert(b[n - 1].paused_at == a[n - 1].paused_at);
    }
}

/// The locks of the second set are the locks of the list that a request holds,
/// and each request has an id.
pub open spec fn locks_normalized(a: Seq<LockPause>, b: Seq<LockPause>) -> bool {
    exists|mid: Seq<LockPause>| #[trigger] locks_given_ids(a, mid) && b == nonempty(mid)
}

/// What a removal of requests of the queue does to a set: the requests with a
/// flag go, the others stay, and the pause ends when none of them stays.
pub open spec fn queue_removed(
    a: Paused,
    b: Paused,
    flags: Seq<bool>,
    gone: Seq<PauseRecord>,
    end: Option<QueueEnd>,
    now: u64,
) -> bool {
    let kept = flagged(a.queue@, flags, false);
    &&& flags.len() == a.queue@.len()
    &&& gone == flagged(a.queue@, flags, true)
    &&& given_ids(kept, b.queue@)
    &&& locks_normalized(a.locks@, b.locks@)
    &&& new_ids_differ(kept + flat(a.locks@), b.requests())
    &&& b.queue_since == stopped_with(a.queue_since, kept)
    &&& b.id_not_in_the_file == a.id_not_in_the_file
    &&& end == (if a.queue@.len() > 0 && kept.len() == 0 {
        Some(QueueEnd { since: a.stopped_at()->0, ended_at: now })
    } else {
        None
    })
}

/// What a removal of requests of one lock does to a set.
pub open spec fn lock_removed(
    a: Paused,
    b: Paused,
    m: int,
    flags: Seq<bool>,
    gone: Seq<PauseRecord>,
) -> bool {
    let list = a.locks@[m].requests@;
    &&& flags.len() == list.len()
    &&& gone == flagged(list, flags, true)
    &&& given_ids(a.queue@, b.queue@)
    &&& b.queue_since == a.stopped_at()
    &&& b.id_not_in_the_file == a.id_not_in_the_file
    &&& exists|mid: Seq<LockPause>|
        mid.len() == a.locks@.len() && mid[m].name == a.locks@[m].name && mid[m].requests@
            == flagged(list, flags, false) && (forall|k: int|
            0 <= k < mid.len() && k != m ==> #[trigger] mid[k] == a.locks@[k])
            && #[trigger] locks_normalized(mid, b.locks@) && new_ids_differ(
            a.queue@ + flat(mid),
            b.requests(),
        )
}

/// What the end of requests by themselves does to a set.
pub open spec fn time_passed(a: Paused, b: Paused, r: Expired, now: u64) -> bool {
    let kept = standing(a.queue@, now as nat);
    let last = latest_end(a.queue@, now as nat);
    &&& given_ids(kept, b.queue@)
    &&& b.queue_since == stopped_with(a.queue_since, kept)
    &&& exists|mid: Seq<LockPause>| #[trigger]
        locks_standing(a.locks@, mid, now as nat) && locks_normalized(mid, b.locks@) && {
            let gave = !all_named(kept + flat(mid));
            let went = kept.len() < a.queue@.len() || exists|k: int|
                0 <= k < mid.len() && (#[trigger] mid[k]).requests@.len()
                    < a.locks@[k].requests@.len();
            &&& r.changed == (went || gave || a.id_not_in_the_file)
            &&& b.id_not_in_the_file == (gave && a.id_not_in_the_file)
            &&& new_ids_differ(kept + flat(mid), b.requests())
        }
    &&& r.queue_end == (if kept.len() == 0 && last is Some {
        Some(
            QueueEnd {
                since: a.stopped_at()->0,
                ended_at: if last->0 < now {
                    last->0
                } else {
                    now
                },
            },
        )
    } else {
        None
    })
}

proof fn lemma_latest_end(list: Seq<PauseRecord>, now: nat)
    ensures
        latest_end(list, now) is Some <==> exists|i: int|
            0 <= i < list.len() && (#[trigger] list[i]).ended(now),
        latest_end(list, now) matches Some(t) ==> t <= now,
    decreases list.len(),
{
    if list.len() > 0 {
        lemma_latest_end(list.drop_last(), now);
        if latest_end(list.drop_last(), now) is Some {
            let k = choose|k: int|
                0 <= k < list.drop_last().len() && (#[trigger] list.drop_last()[k]).ended(now);
            assert(list[k].ended(now));
        }
        if list.last().ended(now) {
            assert(list[list.len() - 1].ended(now));
        }
        if exists|i: int| 0 <= i < list.len() && (#[trigger] list[i]).ended(now) {
            let k = choose|k: int| 0 <= k < list.len() && (#[trigger] list[k]).ended(now);
            if k < list.len() - 1 {
                assert(list.drop_last()[k].ended(now));
            }
        }
    }
}

impl Paused {
    /// Removes the requests of the queue that `which` names. Gives them, and
    /// the end of the pause when none stands after that.
    pub fn remove_queue<F: Fn(&PauseRecord) -> bool>(&mut self, which: F, now: u64) -> (r: (
        Vec<PauseRecord>,
        Option<QueueEnd>,
    ))
        requires
            old(self).wf(),
            forall|x: &PauseRecord| call_requires(which, (x,)),
        ensures
            final(self).wf(),
            final(self).normal(),
            exists|flags: Seq<bool>| #[trigger]
                queue_removed(*old(self), *final(self), flags, r.0@, r.1, now) && forall|i: int|
                    0 <= i < flags.len() ==> call_ensures(
                        which,
                        (&old(self).queue@[i],),
                        #[trigger] flags[i],
                    ),
    {
        let since = self.since();
        let flags = ask(&self.queue, which);
        let mut list: Vec<PauseRecord> = Vec::new();
        std::mem::swap(&mut list, &mut self.queue);
        let (gone, kept) = part(list, &flags);
        self.queue = kept;
        proof {
            lemma_flagged_len(old(self).queue@, flags@, false);
            lemma_earliest(old(self).queue@, old(self).queue@.len());
        }
        let end = match since {
            Some(since) => {
                if self.queue.len() == 0 && gone.len() > 0 {
                    Some(QueueEnd { since, ended_at: now })
                } else {
                    None
                }
            },
            None => None,
        };
        self.normalize();
        let out = (gone, end);
        assert(queue_removed(*old(self), *self, flags@, out.0@, out.1, now));
        out
    }

    /// Removes the requests of one lock that `which` names, and gives them.
    pub fn remove_lock<F: Fn(&PauseRecord) -> bool>(&mut self, name: &str, which: F) -> (r: Vec<
        PauseRecord,
    >)
        requires
            old(self).wf(),
            forall|x: &PauseRecord| call_requires(which, (x,)),
        ensures
            final(self).wf(),
            (forall|m: int| 0 <= m < old(self).locks@.len() ==> (#[trigger] old(self).locks@[m]).name@
                != name@) ==> r@.len() == 0 && *final(self) == *old(self),
            forall|m: int|
                0 <= m < old(self).locks@.len() && (#[trigger] old(self).locks@[m]).name@ == name@
                    ==> final(self).normal() && exists|flags: Seq<bool>| #[trigger]
                    lock_removed(*old(self), *final(self), m, flags, r@) && forall|i: int|
                        0 <= i < flags.len() ==> call_ensures(
                            which,
                            (&old(self).locks@[m].requests@[i],),
                            #[trigger] flags[i],
                        ),
    {
        let mut m: usize = 0;
        while m < self.locks.len() && !text::same(self.locks[m].name.as_str(), name)
            invariant
                m <= self.locks@.len(),
                forall|k: int| 0 <= k < m ==> (#[trigger] self.locks@[k]).name@ != name@,
            decreases self.locks@.len() - m,
        {
            m += 1;
        }
        if m == self.locks.len() {
            return Vec::new();
        }
        let ghost before = self.locks@;
        let flags = ask(&self.locks[m].requests, which);
        let mut list: Vec<PauseRecord> = Vec::new();
        std::mem::swap(&mut list, &mut self.locks[m].requests);
        let (gone, kept) = part(list, &flags);
        self.locks[m].requests = kept;
        let ghost mid = self.locks@;
        self.normalize();
        proof {
            assert(locks_normalized(mid, self.locks@));
            assert(lock_removed(*old(self), *self, m as int, flags@, gone@));
            assert forall|k: int| 0 <= k < before.len() && (#[trigger] before[k]).name@ == name@ implies k
                == m by {
                if k > m {
                    assert(text::before(before[m as int].name@, before[k].name@));
                    text::lemma_before_total(name@, name@);
                }
            }
        }
        gone
    }

    /// Removes each request that reached its end.
    ///
    /// `changed` says that a request went away, or that the set holds an id
    /// that the file does not hold. `queue_end` says that the LAST request of
    /// the queue went away, so the queue runs again; its `ended_at` is the
    /// latest end of the requests that went away, and never a moment after
    /// `now`.
    pub fn expire(&mut self, now: u64) -> (r: Expired)
        requires
            old(self).wf(),
        ensures
            final(self).wf(),
            final(self).normal(),
            time_passed(*old(self), *final(self), r, now),
    {
        let since = self.since();
        let last = latest(&self.queue, now);
        let flags = flags_of_ended(&self.queue, now);
        let mut list: Vec<PauseRecord> = Vec::new();
        std::mem::swap(&mut list, &mut self.queue);
        let (gone, kept) = part(list, &flags);
        self.queue = kept;
        let ghost queue = old(self).queue@;
        let ghost locks = old(self).locks@;
        proof {
            lemma_flagged_len(queue, flags@, false);
            lemma_latest_end(queue, now as nat);
            lemma_earliest(queue, queue.len());
        }
        let mut went = gone.len() > 0;
        let mut m: usize = 0;
        while m < self.locks.len()
            invariant
                m <= self.locks@.len(),
                self.locks@.len() == locks.len(),
                *self == (Paused { locks: self.locks, queue: self.queue, ..*old(self) }),
                self.queue@ == standing(queue, now as nat),
                forall|k: int|
                    0 <= k < m ==> (#[trigger] self.locks@[k]).name == locks[k].name
                        && self.locks@[k].requests@ == standing(locks[k].requests@, now as nat),
                forall|k: int| m <= k < locks.len() ==> #[trigger] self.locks@[k] == locks[k],
                went == (self.queue@.len() < queue.len() || exists|k: int|
                    0 <= k < m && (#[trigger] self.locks@[k]).requests@.len()
                        < locks[k].requests@.len()),
            decreases self.locks@.len() - m,
        {
            let ghost before = self.locks@;
            let ghost here = locks[m as int].requests@;
            let flags = flags_of_ended(&self.locks[m].requests, now);
            let mut list: Vec<PauseRecord> = Vec::new();
            std::mem::swap(&mut list, &mut self.locks[m].requests);
            let (gone, kept) = part(list, &flags);
            self.locks[m].requests = kept;
            proof {
                lemma_flagged_len(here, flags@, false);
                assert forall|k: int| 0 <= k < m implies self.locks@[k] == #[trigger] before[k] by {}
            }
            if gone.len() > 0 {
                went = true;
                assert(self.locks@[m as int].requests@.len() < here.len());
            }
            m += 1;
        }
        let ghost mid = self.locks@;
        proof {
            assert(locks_standing(locks, mid, now as nat));
            assert(in_name_order(mid)) by {
                assert forall|i: int, j: int| 0 <= i < j < mid.len() implies text::before(
                    (#[trigger] mid[i]).name@,
                    (#[trigger] mid[j]).name@,
                ) by {
                    assert(text::before(locks[i].name@, locks[j].name@));
                }
            }
        }
        let queue_end = match (since, last) {
            (Some(since), Some(end)) => {
                if self.queue.len() == 0 {
                    Some(
                        QueueEnd {
                            since,
                            ended_at: if end < now {
                                end
                            } else {
                                now
                            },
                        },
                    )
                } else {
                    None
                }
            },
            _ => None,
        };
        // An id that this pass gave is a change also. The file must hold it
        // before a reader sees it.
        let mut gave = self.normalize();
        proof {
            assert(locks_normalized(mid, self.locks@));
        }
        if !gave {
            gave = self.id_not_in_the_file;
            self.id_not_in_the_file = false;
        }
        Expired { changed: went || gave, queue_end }
    }

    /// Gives the pause that qex holds when it cannot read the file.
    ///
    /// A queue that qex holds by mistake costs latency, and one command
    /// corrects it. A queue that operates by mistake gives the person the
    /// opposite of the one thing that person asked for.
    pub fn held_by_fault(path: &str, fault: &str, now: u64) -> (r: Self)
        ensures
            r.queue@.len() == 1,
            r.queue@[0].id@ == FAULT_ID@,
            r.queue@[0].paused_at == now,
            r.queue@[0].by_pid == 0,
            text::opt_view(r.queue@[0].reason) == Some(path@ + ": "@ + fault@),
            r.queue@[0].until is None,
            r.queue@[0].fault,
            r.queue@[0].issuer_chain is None,
            r.queue@[0].issuer_ns is None,
            r.queue_since == Some(now),
            r.locks@.len() == 0,
            !r.id_not_in_the_file,
            r.wf(),
    {
        let mut reason = text::owned(path);
        reason.append(": ");
        reason.append(fault);
        let record = PauseRecord {
            id: text::owned(FAULT_ID),
            paused_at: now,
            by_pid: 0,
            reason: Some(reason),
            until: None,
            fault: true,
            issuer_chain: None,
            issuer_ns: None,
        };
        let mut queue: Vec<PauseRecord> = Vec::new();
        queue.push(record);
        Paused { queue, queue_since: Some(now), locks: Vec::new(), id_not_in_the_file: false }
    }
}

/// Asks `which` about each request of the list.
fn ask<F: Fn(&PauseRecord) -> bool>(list: &Vec<PauseRecord>, which: F) -> (r: Vec<bool>)
    requires
        forall|x: &PauseRecord| call_requires(which, (x,)),
    ensures
        r@.len() == list@.len(),
        forall|i: int| 0 <= i < r@.len() ==> call_ensures(which, (&list@[i],), #[trigger] r@[i]),
{
    let mut out: Vec<bool> = Vec::new();
    let mut i: usize = 0;
    while i < list.len()
        invariant
            forall|x: &PauseRecord| call_requires(which, (x,)),
            i <= list@.len(),
            out@.len() == i,
            forall|k: int| 0 <= k < i ==> call_ensures(which, (&list@[k],), #[trigger] out@[k]),
        decreases list@.len() - i,
    {
        let b = which(&list[i]);
        out.push(b);
        i += 1;
    }
    out
}

/// The latest end of the requests that reached their ends.
fn latest(list: &Vec<PauseRecord>, now: u64) -> (r: Option<u64>)
    ensures
        r == latest_end(list@, now as nat),
{
    let mut out: Option<u64> = None;
    let mut i: usize = 0;
    while i < list.len()
        invariant
            i <= list@.len(),
            out == latest_end(list@.take(i as int), now as nat),
        decreases list@.len() - i,
    {
        assert(list@.take(i + 1).drop_last() == list@.take(i as int));
        if let Some(end) = list[i].until {
            if now >= end {
                out = match out {
                    Some(t) => Some(
                        if end < t {
                            t
                        } else {
                            end
                        },
                    ),
                    None => Some(end),
                };
            }
        }
        i += 1;
    }
    assert(list@.take(list@.len() as int) == list@);
    out
}

proof fn lemma_flagged_contains(list: Seq<PauseRecord>, flags: Seq<bool>, want: bool, i: int)
    requires
        0 <= i < list.len(),
        flags.len() >= list.len(),
        flags[i] == want,
    ensures
        flagged(list, flags, want).contains(list[i]),
    decreases list.len(),
{
    let all = flagged(list, flags, want);
    if i == list.len() - 1 {
        assert(all[all.len() - 1] == list[i]);
    } else {
        lemma_flagged_contains(list.drop_last(), flags, want, i);
        let less = flagged(list.drop_last(), flags, want);
        let k = choose|k: int| 0 <= k < less.len() && less[k] == list[i];
        assert(all[k] == list[i]);
    }
}

proof fn lemma_given_contains(a: Seq<PauseRecord>, b: Seq<PauseRecord>, x: PauseRecord)
    requires
        given_ids(a, b),
        a.contains(x),
        x.id@.len() > 0,
    ensures
        b.contains(x),
{
    let k = choose|k: int| 0 <= k < a.len() && a[k] == x;
    assert(b[k] == x);
}

/// No request changes or removes a different request: a resume that does not
/// name a request of the queue leaves it as it was.
pub proof fn law_a_resume_leaves_the_other_requests(
    a: Paused,
    b: Paused,
    flags: Seq<bool>,
    gone: Seq<PauseRecord>,
    end: Option<QueueEnd>,
    now: u64,
    i: int,
)
    requires
        a.normal(),
        queue_removed(a, b, flags, gone, end, now),
        0 <= i < a.queue@.len(),
        !flags[i],
    ensures
        b.queue@.contains(a.queue@[i]),
        end is None,
{
    lemma_named_concat(a.queue@, flat(a.locks@));
    lemma_flagged_contains(a.queue@, flags, false, i);
    lemma_given_contains(flagged(a.queue@, flags, false), b.queue@, a.queue@[i]);
    lemma_flagged_len(a.queue@, flags, false);
}

/// A resume that names nothing removes nothing and ends nothing: the queue and
/// the moment when it stopped stay as they were.
pub proof fn law_an_id_that_does_not_stand_removes_nothing(
    a: Paused,
    b: Paused,
    flags: Seq<bool>,
    gone: Seq<PauseRecord>,
    end: Option<QueueEnd>,
    now: u64,
)
    requires
        a.normal(),
        queue_removed(a, b, flags, gone, end, now),
        forall|i: int| 0 <= i < flags.len() ==> !(#[trigger] flags[i]),
    ensures
        gone.len() == 0,
        end is None,
        b.queue@ == a.queue@,
        b.queue_since == a.queue_since,
{
    lemma_named_concat(a.queue@, flat(a.locks@));
    lemma_flagged_len(a.queue@, flags, false);
    lemma_flagged_len(a.queue@, flags, true);
    lemma_flagged_all(a.queue@, flags);
    let kept = flagged(a.queue@, flags, false);
    assert forall|i: int| 0 <= i < kept.len() implies b.queue@[i] == kept[i] by {
        assert(a.queue@[i].id@.len() > 0);
    }
    assert(b.queue@ == a.queue@);
    assert(a.queue_since is Some <==> a.queue@.len() > 0);
}

proof fn lemma_flagged_all(list: Seq<PauseRecord>, flags: Seq<bool>)
    requires
        flags.len() >= list.len(),
        forall|i: int| 0 <= i < list.len() ==> !(#[trigger] flags[i]),
    ensures
        flagged(list, flags, false) == list,
    decreases list.len(),
{
    if list.len() > 0 {
        lemma_flagged_all(list.drop_last(), flags);
        assert(!flags[list.len() - 1]);
        assert(flagged(list, flags, false) == list.drop_last().push(list.last()));
    }
}

/// A request that did not reach its end does not go away by itself, and the
/// pause of the queue does not end while such a request stands.
pub proof fn law_a_request_stays_until_its_end(
    a: Paused,
    b: Paused,
    r: Expired,
    now: u64,
    i: int,
)
    requires
        a.normal(),
        time_passed(a, b, r, now),
        0 <= i < a.queue@.len(),
        !a.queue@[i].ended(now as nat),
    ensures
        b.queue@.contains(a.queue@[i]),
        r.queue_end is None,
        b.queue_since == a.queue_since,
{
    let flags = ended_flags(a.queue@, now as nat);
    assert(!flags[i]);
    lemma_named_concat(a.queue@, flat(a.locks@));
    lemma_flagged_contains(a.queue@, flags, false, i);
    lemma_given_contains(standing(a.queue@, now as nat), b.queue@, a.queue@[i]);
    lemma_flagged_len(a.queue@, flags, false);
}

/// The pause of the queue ends by itself exactly when every request of it
/// reached its end. It began when the queue stopped running, and it ended at
/// the latest of those ends, which is not after `now`.
pub proof fn law_a_pause_ends_at_its_last_end(a: Paused, b: Paused, r: Expired, now: u64)
    requires
        a.normal(),
        time_passed(a, b, r, now),
    ensures
        r.queue_end is Some <==> a.queue@.len() > 0 && forall|i: int|
            0 <= i < a.queue@.len() ==> (#[trigger] a.queue@[i]).ended(now as nat),
        r.queue_end matches Some(end) ==> {
            &&& Some(end.since) == a.queue_since
            &&& Some(end.ended_at) == latest_end(a.queue@, now as nat)
            &&& end.ended_at <= now
            &&& b.queue@.len() == 0
        },
{
    let flags = ended_flags(a.queue@, now as nat);
    lemma_flagged_len(a.queue@, flags, false);
    lemma_latest_end(a.queue@, now as nat);
    if a.queue@.len() > 0 && forall|i: int|
        0 <= i < a.queue@.len() ==> (#[trigger] a.queue@[i]).ended(now as nat) {
        assert(a.queue@[0].ended(now as nat));
        assert forall|i: int| 0 <= i < a.queue@.len() implies #[trigger] flags[i] != false by {
            assert(a.queue@[i].ended(now as nat));
        }
    }
    if r.queue_end is Some {
        assert forall|i: int| 0 <= i < a.queue@.len() implies (#[trigger] a.queue@[i]).ended(
            now as nat,
        ) by {
            assert(flags[i] != false);
        }
    }
}

proof fn lemma_nonempty_whole(locks: Seq<LockPause>)
    requires
        forall|i: int| 0 <= i < locks.len() ==> (#[trigger] locks[i]).requests@.len() > 0,
    ensures
        nonempty(locks) == locks,
    decreases locks.len(),
{
    if locks.len() > 0 {
        let less = locks.drop_last();
        assert forall|i: int| 0 <= i < less.len() implies (#[trigger] less[i]).requests@.len() > 0 by {
            assert(less[i] == locks[i]);
        }
        lemma_nonempty_whole(less);
        assert(locks[locks.len() - 1].requests@.len() > 0);
        assert(nonempty(locks) == less.push(locks.last()));
    }
}

proof fn lemma_flat_same(a: Seq<LockPause>, b: Seq<LockPause>)
    requires
        a.len() == b.len(),
        forall|i: int| 0 <= i < a.len() ==> (#[trigger] a[i]).requests@ == b[i].requests@,
    ensures
        flat(a) == flat(b),
    decreases a.len(),
{
    if a.len() > 0 {
        let x = a.drop_last();
        let y = b.drop_last();
        assert forall|i: int| 0 <= i < x.len() implies (#[trigger] x[i]).requests@ == y[i].requests@ by {
            assert(a[i].requests@ == b[i].requests@);
        }
        lemma_flat_same(x, y);
        assert(a[a.len() - 1].requests@ == b[a.len() - 1].requests@);
    }
}

proof fn lemma_named_lock(locks: Seq<LockPause>, m: int)
    requires
        0 <= m < locks.len(),
        all_named(flat(locks)),
    ensures
        all_named(locks[m].requests@),
{
    lemma_flat_split(locks, m);
    lemma_named_concat(flat(locks.take(m)) + locks[m].requests@, flat(locks.skip(m + 1)));
    lemma_named_concat(flat(locks.take(m)), locks[m].requests@);
}

/// No request of the list reached its end.
spec fn none_ended(list: Seq<PauseRecord>, now: nat) -> bool {
    forall|i: int| 0 <= i < list.len() ==> !(#[trigger] list[i]).ended(now)
}

proof fn lemma_standing_stand(list: Seq<PauseRecord>, flags: Seq<bool>, now: nat)
    requires
        flags.len() >= list.len(),
        forall|i: int| 0 <= i < list.len() ==> #[trigger] flags[i] == list[i].ended(now),
    ensures
        none_ended(flagged(list, flags, false), now),
    decreases list.len(),
{
    if list.len() > 0 {
        let less = list.drop_last();
        assert forall|i: int| 0 <= i < less.len() implies #[trigger] flags[i] == less[i].ended(now) by {
            assert(flags[i] == list[i].ended(now));
        }
        lemma_standing_stand(less, flags, now);
        assert(flags[list.len() - 1] == list[list.len() - 1].ended(now));
    }
}

/// The requests that stand, with ids, all stand at the same moment, and a
/// second look finds the same ones.
proof fn lemma_stand_again(
    a: Seq<PauseRecord>,
    b: Seq<PauseRecord>,
    now: nat,
)
    requires
        given_ids(standing(a, now), b),
    ensures
        none_ended(b, now),
        standing(b, now) == b,
        latest_end(b, now) is None,
{
    let kept = standing(a, now);
    lemma_standing_stand(a, ended_flags(a, now), now);
    assert forall|i: int| 0 <= i < b.len() implies !(#[trigger] b[i]).ended(now) by {
        assert(!kept[i].ended(now));
    }
    assert forall|i: int| 0 <= i < b.len() implies !(#[trigger] ended_flags(b, now)[i]) by {
        assert(!b[i].ended(now));
    }
    lemma_flagged_all(b, ended_flags(b, now));
    lemma_latest_end(b, now);
}

proof fn lemma_named_stay(a: Seq<PauseRecord>, b: Seq<PauseRecord>)
    requires
        all_named(a),
        given_ids(a, b),
    ensures
        b == a,
{
    assert forall|i: int| 0 <= i < a.len() implies b[i] == a[i] by {
        assert(a[i].id@.len() > 0);
    }
}

/// The locks that a look at the moment `now` leaves are the ones that a second
/// look at that moment leaves.
proof fn lemma_locks_again(
    a: Seq<LockPause>,
    mid: Seq<LockPause>,
    b: Seq<LockPause>,
    again: Seq<LockPause>,
    c: Seq<LockPause>,
    now: nat,
)
    requires
        locks_standing(a, mid, now),
        locks_normalized(mid, b),
        all_named(flat(b)),
        forall|i: int| 0 <= i < b.len() ==> (#[trigger] b[i]).requests@.len() > 0,
        locks_standing(b, again, now),
        locks_normalized(again, c),
    ensures
        c.len() == b.len(),
        again.len() == b.len(),
        forall|i: int|
            0 <= i < b.len() ==> (#[trigger] c[i]).name == b[i].name && c[i].requests@
                == b[i].requests@,
        forall|i: int| 0 <= i < b.len() ==> (#[trigger] again[i]).requests@ == b[i].requests@,
        flat(again) == flat(b),
{
    let given = choose|given: Seq<LockPause>| #[trigger]
        locks_given_ids(mid, given) && b == nonempty(given);
    let last = choose|last: Seq<LockPause>| #[trigger]
        locks_given_ids(again, last) && c == nonempty(last);
    lemma_nonempty(given);
    assert forall|i: int| 0 <= i < b.len() implies (#[trigger] again[i]).requests@ == b[i].requests@
        && last[i].requests@ == b[i].requests@ && last[i].name == b[i].name by {
        assert(given.contains(nonempty(given)[i]));
        let k = choose|k: int| 0 <= k < given.len() && given[k] == b[i];
        assert(given_ids(mid[k].requests@, given[k].requests@));
        assert(mid[k].requests@ == standing(a[k].requests@, now));
        lemma_stand_again(a[k].requests@, b[i].requests@, now);
        assert(again[i].name == b[i].name);
        assert(last[i].name == again[i].name);
        lemma_named_lock(b, i);
        lemma_named_stay(again[i].requests@, last[i].requests@);
    }
    lemma_flat_same(again, b);
    assert forall|i: int| 0 <= i < last.len() implies (#[trigger] last[i]).requests@.len() > 0 by {
        assert(again[i].requests@ == b[i].requests@);
    }
    lemma_nonempty_whole(last);
    assert forall|i: int| 0 <= i < b.len() implies (#[trigger] c[i]).name == b[i].name
        && c[i].requests@ == b[i].requests@ by {
        assert(again[i].requests@ == b[i].requests@);
    }
}

/// A second look at the same moment changes nothing: every request stays as it
/// is and no pause ends. It reports a change only where the set still holds an id
/// that the file does not hold, which never occurs where each request had an id
/// before the first look.
pub proof fn law_a_second_look_changes_nothing(
    a: Paused,
    b: Paused,
    c: Paused,
    first: Expired,
    second: Expired,
    now: u64,
)
    requires
        time_passed(a, b, first, now),
        b.normal(),
        time_passed(b, c, second, now),
    ensures
        c.queue@ == b.queue@,
        c.queue_since == b.queue_since,
        c.locks@.len() == b.locks@.len(),
        forall|i: int|
            0 <= i < b.locks@.len() ==> (#[trigger] c.locks@[i]).name == b.locks@[i].name
                && c.locks@[i].requests@ == b.locks@[i].requests@,
        second.queue_end is None,
        second.changed == b.id_not_in_the_file,
        all_named(a.requests()) ==> !second.changed,
{
    let at = now as nat;
    let mid = choose|mid: Seq<LockPause>| #[trigger]
        locks_standing(a.locks@, mid, at) && locks_normalized(mid, b.locks@) && b.id_not_in_the_file
            == (!all_named(standing(a.queue@, at) + flat(mid)) && a.id_not_in_the_file);
    let again = choose|again: Seq<LockPause>| #[trigger]
        locks_standing(b.locks@, again, at) && locks_normalized(again, c.locks@) && {
            let kept = standing(b.queue@, at);
            let gave = !all_named(kept + flat(again));
            let went = kept.len() < b.queue@.len() || exists|k: int|
                0 <= k < again.len() && (#[trigger] again[k]).requests@.len()
                    < b.locks@[k].requests@.len();
            second.changed == (went || gave || b.id_not_in_the_file)
        };
    lemma_named_concat(b.queue@, flat(b.locks@));
    lemma_stand_again(a.queue@, b.queue@, at);
    lemma_named_stay(b.queue@, c.queue@);
    lemma_locks_again(a.locks@, mid, b.locks@, again, c.locks@, at);
    if all_named(a.requests()) {
        lemma_named_concat(a.queue@, flat(a.locks@));
        lemma_flagged_named(a.queue@, ended_flags(a.queue@, at), false);
        lemma_standing_named(a.locks@, mid, at);
        lemma_named_concat(standing(a.queue@, at), flat(mid));
    }
}

proof fn lemma_flagged_named(list: Seq<PauseRecord>, flags: Seq<bool>, want: bool)
    requires
        all_named(list),
    ensures
        all_named(flagged(list, flags, want)),
    decreases list.len(),
{
    if list.len() > 0 {
        let less = list.drop_last();
        assert forall|i: int| 0 <= i < less.len() implies (#[trigger] less[i]).id@.len() > 0 by {
            assert(list[i].id@.len() > 0);
        }
        lemma_flagged_named(less, flags, want);
        assert(list[list.len() - 1].id@.len() > 0);
    }
}

proof fn lemma_standing_named(a: Seq<LockPause>, b: Seq<LockPause>, now: nat)
    requires
        all_named(flat(a)),
        locks_standing(a, b, now),
    ensures
        all_named(flat(b)),
    decreases a.len(),
{
    if a.len() > 0 {
        let x = a.drop_last();
        let y = b.drop_last();
        let k = a.len() - 1;
        lemma_named_concat(flat(x), a.last().requests@);
        assert forall|i: int| 0 <= i < x.len() implies (#[trigger] y[i]).name == x[i].name
            && y[i].requests@ == standing(x[i].requests@, now) by {
            assert(b[i].name == a[i].name);
        }
        lemma_standing_named(x, y, now);
        assert(b[k].name == a[k].name);
        lemma_flagged_named(a[k].requests@, ended_flags(a[k].requests@, now), false);
        lemma_named_concat(flat(y), b.last().requests@);
    }
}

// ---------------------------------------------------------------------------
// What a set of requests promises.
// ---------------------------------------------------------------------------

/// A request reached its end exactly where it has one and the clock is not
/// before it.
pub proof fn law_when_a_request_ends(record: &PauseRecord, now: u64, r: bool)
    requires
        call_ensures(PauseRecord::expired, (record, now), r),
    ensures
        record.until is None ==> !r,
        record.until is Some ==> (r <==> record.until->0 <= now),
        record.ended(now as nat) == r,
{
}

/// One more request stays in a list exactly where its flag says so, behind the
/// others.
pub proof fn law_the_flags_part_a_list(
    list: Seq<PauseRecord>,
    flags: Seq<bool>,
    x: PauseRecord,
    want: bool,
)
    requires
        flags.len() > list.len(),
    ensures
        flagged(list.push(x), flags, want) == if flags[list.len() as int] == want {
            flagged(list, flags, want).push(x)
        } else {
            flagged(list, flags, want)
        },
        flagged(Seq::empty(), flags, want).len() == 0,
{
    assert(list.push(x).drop_last() == list);
}

/// The requests that stand after a moment are those with no end and those whose
/// end comes later, in their order. The requests of persons are those that qex
/// did not make because of a fault.
pub proof fn law_which_requests_stand(list: Seq<PauseRecord>, x: PauseRecord, now: nat)
    ensures
        standing(list.push(x), now) == if x.until is None || x.until->0 > now {
            standing(list, now).push(x)
        } else {
            standing(list, now)
        },
        without_fault(list.push(x)) == if x.fault {
            without_fault(list)
        } else {
            without_fault(list).push(x)
        },
        standing(Seq::empty(), now).len() == 0,
        without_fault(Seq::empty()).len() == 0,
{
    let all = list.push(x);
    lemma_same_flags(list, ended_flags(list, now), ended_flags(all, now), false);
    lemma_same_flags(list, fault_flags(list), fault_flags(all), false);
    law_the_flags_part_a_list(list, ended_flags(all, now), x, false);
    law_the_flags_part_a_list(list, fault_flags(all), x, false);
    assert(ended_flags(all, now)[list.len() as int] == x.ended(now));
    assert(fault_flags(all)[list.len() as int] == x.fault);
}

proof fn lemma_same_flags(list: Seq<PauseRecord>, a: Seq<bool>, b: Seq<bool>, want: bool)
    requires
        a.len() >= list.len(),
        b.len() >= list.len(),
        forall|i: int| 0 <= i < list.len() ==> a[i] == b[i],
    ensures
        flagged(list, a, want) == flagged(list, b, want),
    decreases list.len(),
{
    if list.len() > 0 {
        lemma_same_flags(list.drop_last(), a, b, want);
        assert(a[list.len() - 1] == b[list.len() - 1]);
    }
}

/// The queue stopped running at the moment that was kept for it, and where none
/// was kept at the earliest moment of its requests. A queue with no request
/// runs.
pub proof fn law_when_the_queue_stopped(paused: &Paused, r: Option<u64>, i: int)
    requires
        call_ensures(Paused::since, (paused,), r),
        0 <= i < paused.queue@.len(),
    ensures
        paused.queue_since is Some ==> r == paused.queue_since,
        paused.queue_since is None ==> r is Some && r->0 <= paused.queue@[i].paused_at && exists|
            k: int,
        | 0 <= k < paused.queue@.len() && (#[trigger] paused.queue@[k]).paused_at == r->0,
{
    lemma_earliest(paused.queue@, paused.queue@.len());
    lemma_earliest_is_one(paused.queue@, paused.queue@.len());
}

proof fn lemma_earliest_is_one(list: Seq<PauseRecord>, n: nat)
    requires
        0 < n <= list.len(),
    ensures
        exists|k: int| 0 <= k < n && earliest(list, n) == Some((#[trigger] list[k]).paused_at),
    decreases n,
{
    if n > 1 {
        lemma_earliest_is_one(list, (n - 1) as nat);
    } else {
        assert(earliest(list, 0) is None);
    }
    assert(list[n - 1].paused_at == list[n - 1].paused_at);
}

/// The latest end of a list is the end of one of its requests that reached it,
/// and no such end comes later.
pub proof fn law_the_latest_end(list: Seq<PauseRecord>, now: nat, i: int)
    requires
        0 <= i < list.len(),
        list[i].until is Some,
        list[i].until->0 <= now,
    ensures
        latest_end(list, now) is Some,
        list[i].until->0 <= latest_end(list, now)->0,
        exists|k: int|
            0 <= k < list.len() && (#[trigger] list[k]).until == latest_end(list, now)
                && list[k].until->0 <= now,
    decreases list.len(),
{
    let less = list.drop_last();
    let last = list.last();
    if i < less.len() {
        assert(less[i] == list[i]);
        law_the_latest_end(less, now, i);
        let k = choose|k: int|
            0 <= k < less.len() && (#[trigger] less[k]).until == latest_end(less, now)
                && less[k].until->0 <= now;
        assert(list[k].until == latest_end(less, now));
    } else {
        lemma_latest_end(less, now);
        if latest_end(less, now) is Some {
            let k = choose|k: int| 0 <= k < less.len() && (#[trigger] less[k]).ended(now);
            law_the_latest_end(less, now, k);
            let m = choose|m: int|
                0 <= m < less.len() && (#[trigger] less[m]).until == latest_end(less, now)
                    && less[m].until->0 <= now;
            assert(list[m].until == latest_end(less, now));
        }
    }
    assert(list[list.len() - 1].until == last.until);
}

proof fn lemma_same_locks(a: Seq<LockPause>, b: Seq<LockPause>, name: Seq<char>)
    requires
        a.len() == b.len(),
        forall|i: int|
            0 <= i < a.len() ==> (#[trigger] a[i]).name@ == b[i].name@ && a[i].requests@
                == b[i].requests@,
    ensures
        requests_for(a, name) == requests_for(b, name),
        in_name_order(a) ==> in_name_order(b),
    decreases a.len(),
{
    if a.len() > 0 {
        let x = a.drop_last();
        let y = b.drop_last();
        assert forall|i: int| 0 <= i < x.len() implies (#[trigger] x[i]).name@ == y[i].name@
            && x[i].requests@ == y[i].requests@ by {
            assert(a[i].name@ == b[i].name@);
        }
        lemma_same_locks(x, y, name);
        assert(a[a.len() - 1].name@ == b[a.len() - 1].name@);
    }
    if in_name_order(a) {
        assert forall|i: int, j: int| 0 <= i < j < b.len() implies text::before(
            (#[trigger] b[i]).name@,
            (#[trigger] b[j]).name@,
        ) by {
            assert(a[i].name@ == b[i].name@);
            assert(a[j].name@ == b[j].name@);
        }
    }
}

proof fn lemma_nonempty_requests(locks: Seq<LockPause>, name: Seq<char>)
    requires
        in_name_order(locks),
    ensures
        requests_for(nonempty(locks), name) == requests_for(locks, name),
    decreases locks.len(),
{
    if locks.len() > 0 {
        let less = locks.drop_last();
        assert forall|i: int, j: int| 0 <= i < j < less.len() implies text::before(
            (#[trigger] less[i]).name@,
            (#[trigger] less[j]).name@,
        ) by {
            assert(less[i] == locks[i] && less[j] == locks[j]);
        }
        lemma_nonempty_requests(less, name);
        let last = locks.last();
        if last.requests@.len() > 0 {
            assert(nonempty(locks).drop_last() == nonempty(less));
        } else if last.name@ == name {
            lemma_requests_for(less, name);
            if requests_for(less, name).len() > 0 {
                let i = choose|i: int| 0 <= i < less.len() && (#[trigger] less[i]).name@ == name;
                assert(locks[i].name@ == name);
                assert(text::before(locks[i].name@, locks[locks.len() - 1].name@));
                text::lemma_before_total(name, name);
            }
            assert(requests_for(less, name) == last.requests@);
        }
    }
}

proof fn lemma_normalized_requests(a: Seq<LockPause>, b: Seq<LockPause>, name: Seq<char>)
    requires
        in_name_order(a),
        forall|m: int| 0 <= m < a.len() ==> all_named((#[trigger] a[m]).requests@),
        locks_normalized(a, b),
    ensures
        requests_for(b, name) == requests_for(a, name),
{
    let mid = choose|mid: Seq<LockPause>| #[trigger]
        locks_given_ids(a, mid) && b == nonempty(mid);
    assert forall|i: int| 0 <= i < a.len() implies (#[trigger] a[i]).name@ == mid[i].name@
        && a[i].requests@ == mid[i].requests@ by {
        assert(mid[i].name == a[i].name);
        lemma_named_stay(a[i].requests@, mid[i].requests@);
    }
    lemma_same_locks(a, mid, name);
    lemma_nonempty_requests(mid, name);
}

/// The end of requests by themselves leaves of the queue and of each lock exactly
/// the requests that did not reach their ends.
pub proof fn law_what_stands_after_a_moment(
    a: Paused,
    b: Paused,
    r: Expired,
    now: u64,
    name: Seq<char>,
)
    requires
        a.wf(),
        a.normal(),
        time_passed(a, b, r, now),
    ensures
        b.queue@ == standing(a.queue@, now as nat),
        requests_for(b.locks@, name) == standing(requests_for(a.locks@, name), now as nat),
{
    lemma_named_concat(a.queue@, flat(a.locks@));
    lemma_flagged_named(a.queue@, ended_flags(a.queue@, now as nat), false);
    lemma_named_stay(standing(a.queue@, now as nat), b.queue@);
    let mid = choose|mid: Seq<LockPause>| #[trigger]
        locks_standing(a.locks@, mid, now as nat) && locks_normalized(mid, b.locks@);
    assert forall|m: int| 0 <= m < mid.len() implies all_named((#[trigger] mid[m]).requests@) by {
        lemma_named_lock(a.locks@, m);
        lemma_flagged_named(
            a.locks@[m].requests@,
            ended_flags(a.locks@[m].requests@, now as nat),
            false,
        );
        assert(mid[m].requests@ == standing(a.locks@[m].requests@, now as nat));
    }
    assert(in_name_order(mid)) by {
        assert forall|i: int, j: int| 0 <= i < j < mid.len() implies text::before(
            (#[trigger] mid[i]).name@,
            (#[trigger] mid[j]).name@,
        ) by {
            assert(mid[i].name == a.locks@[i].name);
            assert(mid[j].name == a.locks@[j].name);
        }
    }
    lemma_normalized_requests(mid, b.locks@, name);
    lemma_standing_for(a.locks@, mid, now as nat, name);
}

proof fn lemma_standing_for(a: Seq<LockPause>, b: Seq<LockPause>, now: nat, name: Seq<char>)
    requires
        locks_standing(a, b, now),
    ensures
        requests_for(b, name) == standing(requests_for(a, name), now),
    decreases a.len(),
{
    if a.len() > 0 {
        let x = a.drop_last();
        let y = b.drop_last();
        assert forall|i: int| 0 <= i < x.len() implies (#[trigger] y[i]).name == x[i].name
            && y[i].requests@ == standing(x[i].requests@, now) by {
            assert(b[i].name == a[i].name);
        }
        lemma_standing_for(x, y, now, name);
        assert(b[a.len() - 1].name == a[a.len() - 1].name);
    } else {
        assert(flagged(Seq::empty(), ended_flags(Seq::empty(), now), false).len() == 0);
        assert(requests_for(b, name) == standing(requests_for(a, name), now));
    }
}

/// A resume of the queue leaves exactly the requests of the queue that it does
/// not name, in their order, and every request of every lock.
pub proof fn law_what_a_resume_of_the_queue_leaves(
    a: Paused,
    b: Paused,
    flags: Seq<bool>,
    gone: Seq<PauseRecord>,
    end: Option<QueueEnd>,
    now: u64,
    name: Seq<char>,
)
    requires
        a.wf(),
        a.normal(),
        queue_removed(a, b, flags, gone, end, now),
    ensures
        b.queue@ == flagged(a.queue@, flags, false),
        gone == flagged(a.queue@, flags, true),
        gone.len() + b.queue@.len() == a.queue@.len(),
        requests_for(b.locks@, name) == requests_for(a.locks@, name),
        end is Some <==> a.queue@.len() > 0 && b.queue@.len() == 0,
        end is Some ==> Some(end->0.since) == a.queue_since && end->0.ended_at == now,
{
    lemma_named_concat(a.queue@, flat(a.locks@));
    lemma_flagged_named(a.queue@, flags, false);
    lemma_named_stay(flagged(a.queue@, flags, false), b.queue@);
    lemma_flagged_len(a.queue@, flags, true);
    assert forall|m: int| 0 <= m < a.locks@.len() implies all_named(
        (#[trigger] a.locks@[m]).requests@,
    ) by {
        lemma_named_lock(a.locks@, m);
    }
    lemma_normalized_requests(a.locks@, b.locks@, name);
}

/// A resume of one lock leaves exactly the requests of the lock that it does not
/// name, and every request of the queue and of every other lock.
pub proof fn law_what_a_resume_of_a_lock_leaves(
    a: Paused,
    b: Paused,
    m: int,
    flags: Seq<bool>,
    gone: Seq<PauseRecord>,
    name: Seq<char>,
)
    requires
        a.wf(),
        a.normal(),
        0 <= m < a.locks@.len(),
        lock_removed(a, b, m, flags, gone),
    ensures
        b.queue@ == a.queue@,
        b.queue_since == a.queue_since,
        gone == flagged(a.locks@[m].requests@, flags, true),
        name == a.locks@[m].name@ ==> requests_for(b.locks@, name) == flagged(
            a.locks@[m].requests@,
            flags,
            false,
        ),
        name != a.locks@[m].name@ ==> requests_for(b.locks@, name) == requests_for(a.locks@, name),
{
    lemma_named_concat(a.queue@, flat(a.locks@));
    lemma_named_stay(a.queue@, b.queue@);
    let list = a.locks@[m].requests@;
    let mid = choose|mid: Seq<LockPause>|
        mid.len() == a.locks@.len() && mid[m].name == a.locks@[m].name && mid[m].requests@
            == flagged(list, flags, false) && (forall|k: int|
            0 <= k < mid.len() && k != m ==> #[trigger] mid[k] == a.locks@[k])
            && #[trigger] locks_normalized(mid, b.locks@) && new_ids_differ(
            a.queue@ + flat(mid),
            b.requests(),
        );
    assert forall|k: int| 0 <= k < mid.len() implies all_named((#[trigger] mid[k]).requests@) by {
        lemma_named_lock(a.locks@, k);
        if k == m {
            lemma_flagged_named(list, flags, false);
        }
    }
    assert(in_name_order(mid)) by {
        assert forall|i: int, j: int| 0 <= i < j < mid.len() implies text::before(
            (#[trigger] mid[i]).name@,
            (#[trigger] mid[j]).name@,
        ) by {
            assert(mid[i].name == a.locks@[i].name);
            assert(mid[j].name == a.locks@[j].name);
        }
    }
    lemma_normalized_requests(mid, b.locks@, name);
    if name == a.locks@[m].name@ {
        lemma_requests_for(mid, name);
        assert(mid[m].name@ == name);
    } else {
        lemma_other_lock(a.locks@, mid, m, name);
    }
}

proof fn lemma_other_lock(a: Seq<LockPause>, b: Seq<LockPause>, m: int, name: Seq<char>)
    requires
        a.len() == b.len(),
        forall|k: int| 0 <= k < a.len() && k != m ==> #[trigger] b[k] == a[k],
        0 <= m < a.len() ==> b[m].name == a[m].name && a[m].name@ != name,
    ensures
        requests_for(b, name) == requests_for(a, name),
    decreases a.len(),
{
    if a.len() > 0 {
        let x = a.drop_last();
        let y = b.drop_last();
        assert forall|k: int| 0 <= k < x.len() && k != m implies #[trigger] y[k] == x[k] by {
            assert(b[k] == a[k]);
        }
        lemma_other_lock(x, y, m, name);
        let k = a.len() - 1;
        if k != m {
            assert(b[k] == a[k]);
        }
    }
}

/// The home of an id is the queue where a request of the queue has it, and a
/// lock where a request of that lock has it. An id that no request has has no
/// home.
pub proof fn law_the_home_of_a_request(paused: &Paused, id: &str, r: Option<Option<String>>, i: int)
    requires
        call_ensures(Paused::home_of, (paused, id), r),
        0 <= i < paused.queue@.len(),
    ensures
        paused.queue@[i].id@ == id@ ==> r == Some(None::<String>),
        r is None ==> paused.queue@[i].id@ != id@,
        r == Some(None::<String>) ==> exists|k: int|
            0 <= k < paused.queue@.len() && (#[trigger] paused.queue@[k]).id@ == id@,
{
    let all = ids_of(paused.queue@);
    assert(all[i] == paused.queue@[i].id@);
    if r is None && paused.queue@[i].id@ == id@ {
        assert(paused.requests()[i] == paused.queue@[i]);
        assert(ids_of(paused.requests())[i] == id@);
    }
    if all.contains(id@) {
        let k = all.index_of(id@);
        assert(paused.queue@[k].id@ == id@);
    }
}

/// The queue is paused exactly while a request for it stands, and nothing is
/// paused exactly where no request stands for anything.
pub proof fn law_when_something_is_paused(paused: &Paused, queue: bool, nothing: bool)
    requires
        call_ensures(Paused::queue_paused, (paused,), queue),
        call_ensures(Paused::is_empty, (paused,), nothing),
    ensures
        queue <==> paused.queue@.len() > 0,
        nothing <==> !queue && paused.locks@.len() == 0,
{
}

/// After a moment passed, the queue and each lock have exactly the requests whose
/// ends come later. The pause of the queue ended exactly where it had a request
/// and none is left.
pub proof fn law_what_passes_with_time(paused: &mut Paused, now: u64, r: Expired, name: Seq<char>)
    requires
        old(paused).wf(),
        old(paused).normal(),
        call_ensures(Paused::expire, (paused, now), r),
    ensures
        final(paused).queue@ == standing(old(paused).queue@, now as nat),
        requests_for(final(paused).locks@, name) == standing(
            requests_for(old(paused).locks@, name),
            now as nat,
        ),
        r.queue_end is Some <==> old(paused).queue@.len() > 0 && final(paused).queue@.len() == 0,
        r.queue_end is Some ==> Some(r.queue_end->0.since) == old(paused).queue_since
            && r.queue_end->0.ended_at <= now,
        final(paused).queue@.len() > 0 ==> final(paused).queue_since == old(paused).queue_since,
{
    law_what_stands_after_a_moment(*old(paused), *final(paused), r, now, name);
    law_a_pause_ends_at_its_last_end(*old(paused), *final(paused), r, now);
    let list = old(paused).queue@;
    lemma_flagged_len(list, ended_flags(list, now as nat), false);
    assert forall|i: int| 0 <= i < list.len() implies #[trigger] ended_flags(list, now as nat)[i]
        == list[i].ended(now as nat) by {}
    if forall|i: int| 0 <= i < list.len() ==> (#[trigger] list[i]).ended(now as nat) {
        assert forall|i: int| 0 <= i < list.len() implies #[trigger] ended_flags(
            list,
            now as nat,
        )[i] != false by {
            assert(list[i].ended(now as nat));
        }
    } else {
        let i = choose|i: int| 0 <= i < list.len() && !(#[trigger] list[i]).ended(now as nat);
        assert(ended_flags(list, now as nat)[i] == false);
        law_a_request_stays_until_its_end(*old(paused), *final(paused), r, now, i);
    }
}

/// A new request for the queue stands behind the requests of persons that stood
/// before, none of which changes. It stops the queue exactly where nothing
/// stopped it before, and the locks stay as they were.
pub proof fn law_a_new_request_for_the_queue(
    paused: &mut Paused,
    record: PauseRecord,
    r: bool,
    i: int,
)
    requires
        call_ensures(Paused::add_queue, (paused, record), r),
        0 <= i < old(paused).queue@.len(),
    ensures
        !r,
        final(paused).queue_since == old(paused).queue_since,
        !old(paused).queue@[i].fault ==> final(paused).queue@.contains(old(paused).queue@[i]),
        final(paused).queue@.last().paused_at == record.paused_at && final(paused).queue@.last().until == record.until && final(paused).queue@.last().reason == record.reason,
        final(paused).locks == old(paused).locks,
{
    let list = old(paused).queue@;
    if !list[i].fault {
        lemma_flagged_contains(list, fault_flags(list), false, i);
        let kept = without_fault(list);
        let k = kept.index_of(list[i]);
        assert(final(paused).queue@[k] == list[i]);
    }
}

/// The first request for a queue that runs stops it at its own moment.
pub proof fn law_the_first_request_stops_the_queue(paused: &mut Paused, record: PauseRecord, r: bool)
    requires
        call_ensures(Paused::add_queue, (paused, record), r),
        old(paused).queue@.len() == 0,
    ensures
        r,
        final(paused).queue@.len() == 1,
        final(paused).queue_since == Some(record.paused_at),
        final(paused).queue@[0].until == record.until && final(paused).queue@[0].reason
            == record.reason,
{
}

/// A new request for a lock changes nothing else: the queue, and every request of
/// every other lock, stay as they were.
pub proof fn law_a_new_request_for_a_lock(
    paused: &mut Paused,
    name: &str,
    record: PauseRecord,
    r: bool,
    other: Seq<char>,
)
    requires
        old(paused).wf(),
        call_ensures(Paused::add_lock, (paused, name, record), r),
    ensures
        r <==> requests_for(old(paused).locks@, name@).len() == 0,
        final(paused).queue == old(paused).queue,
        other != name@ ==> requests_for(final(paused).locks@, other) == requests_for(
            old(paused).locks@,
            other,
        ),
        requests_for(final(paused).locks@, name@).len() == requests_for(
            old(paused).locks@,
            name@,
        ).len() + 1,
        requests_for(final(paused).locks@, name@).last().until == record.until,
{
    let locks = final(paused).locks@;
    let m = choose|m: int|
        0 <= m < locks.len() && (#[trigger] locks[m]).name@ == name@ && ({
            let list = locks[m].requests@;
            &&& list == requests_for(old(paused).locks@, name@).push(
                PauseRecord { id: list.last().id, ..record },
            )
            &&& list.last().id@.len() >= 8
            &&& old(paused).requests().len() < ids::WORDS ==> ids::short_word(list.last().id@)
            &&& !ids_of(old(paused).requests()).contains(list.last().id@)
            &&& one_lock_changed(old(paused).locks@, locks, m, name@)
        });
    lemma_requests_for(locks, name@);
    assert(locks[m].name@ == name@);
}

/// A resume of the queue removes exactly the requests that it names, gives them
/// back, and leaves the others and every lock as they were.
pub proof fn law_a_resume_of_the_queue<F: Fn(&PauseRecord) -> bool>(
    paused: &mut Paused,
    which: F,
    now: u64,
    r: (Vec<PauseRecord>, Option<QueueEnd>),
    i: int,
    name: Seq<char>,
)
    requires
        old(paused).wf(),
        old(paused).normal(),
        call_ensures(Paused::remove_queue::<F>, (paused, which, now), r),
        0 <= i < old(paused).queue@.len(),
    ensures
        r.0@.contains(old(paused).queue@[i]) && call_ensures(
            which,
            (&old(paused).queue@[i],),
            true,
        ) || final(paused).queue@.contains(old(paused).queue@[i]) && call_ensures(
            which,
            (&old(paused).queue@[i],),
            false,
        ),
        r.0@.len() + final(paused).queue@.len() == old(paused).queue@.len(),
        r.1 is Some <==> final(paused).queue@.len() == 0,
        requests_for(final(paused).locks@, name) == requests_for(old(paused).locks@, name),
{
    let list = old(paused).queue@;
    let flags = choose|flags: Seq<bool>| #[trigger]
        queue_removed(*old(paused), *final(paused), flags, r.0@, r.1, now) && forall|k: int|
            0 <= k < flags.len() ==> call_ensures(which, (&list[k],), #[trigger] flags[k]);
    law_what_a_resume_of_the_queue_leaves(
        *old(paused),
        *final(paused),
        flags,
        r.0@,
        r.1,
        now,
        name,
    );
    lemma_flagged_contains(list, flags, flags[i], i);
    assert(call_ensures(which, (&list[i],), flags[i]));
}

} // verus!

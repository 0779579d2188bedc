//! The stream of events: one line for each change of a job.
//!
//! The coordinator keeps the last events and never waits for a reader. A
//! reader that falls behind loses events and receives a line that counts them.
//! A stream never loses an event in silence.

use crate::job;
use crate::job::{JobState, JobStatus};
use crate::state::{Job, State};
use crate::text;
use std::collections::VecDeque;
use vstd::prelude::*;
use vstd::string::*;

verus! {

/// The number of events that the coordinator keeps.
///
/// This number is the memory limit of the stream. A reader that stops reading
/// costs the coordinator nothing.
pub const RETAINED: usize = 512;

/// Where the reader wants the stream to start.
#[derive(Debug, Clone, Copy, PartialEq, Eq, Structural)]
pub enum Cursor {
    /// Every event that the coordinator still holds, then the new events.
    Start,
    /// The new events only.
    Now,
    /// The events after this sequence number.
    ///
    /// An agent that stops and starts again gives the last number that it read.
    /// It thus loses nothing, which is the reason for the numbers.
    After(u64),
}

/// Says why one job event exists.
#[derive(Debug, Clone, Copy, PartialEq, Eq, Structural)]
pub enum Change {
    /// The job moved to a different state.
    State,
    /// The job stays in the queue, and the reason that it waits changed.
    Reason,
}

/// One line of the stream.
///
/// A reader that meets a type that it does not know must ignore that line and
/// continue; a later version of qex can add a type.
#[derive(Debug)]
pub enum Event {
    /// The first line of every stream.
    ///
    /// It names the coordinator, so a reader can see that the coordinator
    /// restarted and that the sequence numbers start again.
    Stream {
        time: u64,
        version: String,
        pid: i32,
        /// The time when this coordinator started. It identifies the numbers.
        coordinator_started_at: u64,
        /// The oldest event that the coordinator still holds.
        first_seq: u64,
        /// The newest event that the coordinator holds.
        last_seq: u64,
    },
    /// The record of one job changed.
    Job {
        seq: u64,
        time: u64,
        id: u128,
        name: String,
        state: JobState,
        /// The state before this event, or none for the first event of a job.
        previous: Option<JobState>,
        change: Change,
        /// The whole record.
        job: Box<JobStatus>,
    },
    /// The reader lost events, and this line counts them.
    Gap {
        time: u64,
        /// The number of events that the reader did not receive, or none where
        /// they cannot be counted: the number of the reader comes from a
        /// different stream, and two streams have no common measure.
        missed: Option<u64>,
        /// The sequence number of the next event that the reader receives.
        next_seq: u64,
        reason: String,
    },
    /// The coordinator stops now.
    Bye { time: u64, reason: String },
}

impl Event {
    /// True when the two lines say the same.
    pub open spec fn same(self, o: Event) -> bool {
        match (self, o) {
            (
                Event::Stream {
                    time: t1,
                    version: v1,
                    pid: p1,
                    coordinator_started_at: c1,
                    first_seq: f1,
                    last_seq: l1,
                },
                Event::Stream {
                    time: t2,
                    version: v2,
                    pid: p2,
                    coordinator_started_at: c2,
                    first_seq: f2,
                    last_seq: l2,
                },
            ) => t1 == t2 && v1@ == v2@ && p1 == p2 && c1 == c2 && f1 == f2 && l1 == l2,
            (
                Event::Job {
                    seq: q1,
                    time: t1,
                    id: i1,
                    name: n1,
                    state: s1,
                    previous: p1,
                    change: c1,
                    job: j1,
                },
                Event::Job {
                    seq: q2,
                    time: t2,
                    id: i2,
                    name: n2,
                    state: s2,
                    previous: p2,
                    change: c2,
                    job: j2,
                },
            ) => q1 == q2 && t1 == t2 && i1 == i2 && n1@ == n2@ && s1 == s2 && p1 == p2 && c1 == c2
                && j1.same(*j2),
            (
                Event::Gap { time: t1, missed: m1, next_seq: q1, reason: r1 },
                Event::Gap { time: t2, missed: m2, next_seq: q2, reason: r2 },
            ) => t1 == t2 && m1 == m2 && q1 == q2 && r1@ == r2@,
            (Event::Bye { time: t1, reason: r1 }, Event::Bye { time: t2, reason: r2 }) => t1 == t2
                && r1@ == r2@,
            _ => false,
        }
    }

    /// A copy of the line.
    pub fn copy(&self) -> (r: Event)
        ensures
            r.same(*self),
    {
        match self {
            Event::Stream { time, version, pid, coordinator_started_at, first_seq, last_seq } => {
                Event::Stream {
                    time: *time,
                    version: version.clone(),
                    pid: *pid,
                    coordinator_started_at: *coordinator_started_at,
                    first_seq: *first_seq,
                    last_seq: *last_seq,
                }
            },
            Event::Job { seq, time, id, name, state, previous, change, job } => {
                Event::Job {
                    seq: *seq,
                    time: *time,
                    id: *id,
                    name: name.clone(),
                    state: *state,
                    previous: *previous,
                    change: *change,
                    job: Box::new(job.copy()),
                }
            },
            Event::Gap { time, missed, next_seq, reason } => {
                Event::Gap {
                    time: *time,
                    missed: *missed,
                    next_seq: *next_seq,
                    reason: reason.clone(),
                }
            },
            Event::Bye { time, reason } => { Event::Bye { time: *time, reason: reason.clone() } },
        }
    }
}

/// What the log reported for one job.
#[derive(Debug)]
pub struct Reported {
    pub id: u128,
    pub state: JobState,
    pub reason: Option<String>,
}

/// The events that the coordinator holds, and the state that it reported.
pub struct EventLog {
    /// The last events with their numbers, oldest first.
    pub ring: VecDeque<(u64, Event)>,
    /// The number for the next event. The first event has the number 1.
    pub next_seq: u64,
    /// The number of events that left the ring.
    pub dropped: u64,
    /// The state and the queue reason that the log reported for each job.
    pub reported: Vec<Reported>,
    /// The number of connections that read the stream now.
    pub readers: usize,
    /// The number of events that the ring holds.
    pub capacity: usize,
}

/// The ring after one more event.
pub open spec fn pushed(ring: Seq<(u64, Event)>, capacity: nat, entry: (u64, Event)) -> Seq<
    (u64, Event),
> {
    if ring.len() == capacity && ring.len() > 0 {
        ring.skip(1).push(entry)
    } else {
        ring.push(entry)
    }
}

/// The second log is the first with one event more.
pub open spec fn grew(before: EventLog, after: EventLog, event: Event) -> bool {
    &&& after.wf()
    &&& after.next_seq == before.next_seq + 1
    &&& after.dropped == (if before.ring@.len() == before.capacity {
        before.dropped + 1
    } else {
        before.dropped as int
    })
    &&& after.reported == before.reported
    &&& after.readers == before.readers
    &&& after.capacity == before.capacity
    &&& after.ring@ == pushed(before.ring@, before.capacity as nat, (before.next_seq, event))
}

/// The last `n` entries of `s`, or all of them.
pub open spec fn last_entries(s: Seq<(u64, Event)>, n: nat) -> Seq<(u64, Event)> {
    if s.len() <= n {
        s
    } else {
        s.skip(s.len() - n)
    }
}

impl EventLog {
    /// The numbers of the events in the ring follow each other and end before
    /// the next number, and the ring and the count of the dropped events are
    /// together all the events.
    pub open spec fn wf(self) -> bool {
        &&& self.next_seq >= 1
        &&& self.ring@.len() < self.next_seq
        &&& forall|i: int|
            0 <= i < self.ring@.len() ==> (#[trigger] self.ring@[i]).0 == self.next_seq
                - self.ring@.len() + i
        &&& self.capacity > 0 ==> {
            &&& self.ring@.len() <= self.capacity
            &&& self.dropped + self.ring@.len() == self.next_seq - 1
        }
    }

    /// The number of the oldest event in the ring, or of the next event.
    pub open spec fn first(self) -> int {
        self.next_seq - self.ring@.len()
    }

    /// An empty log. `wanted` is the size of the ring that the environment
    /// asks for, where it asks for one.
    pub fn new(wanted: Option<usize>) -> (r: Self)
        ensures
            r.wf(),
            r.ring@.len() == 0,
            r.next_seq == 1,
            r.dropped == 0,
            r.reported@.len() == 0,
            r.readers == 0,
            r.capacity == (match wanted {
                Some(n) => if n > 0 {
                    n
                } else {
                    RETAINED
                },
                None => RETAINED,
            }),
    {
        EventLog::with_capacity(
            match wanted {
                Some(n) => if n > 0 {
                    n
                } else {
                    RETAINED
                },
                None => RETAINED,
            },
        )
    }

    /// An empty log with a ring for `capacity` events.
    pub fn with_capacity(capacity: usize) -> (r: Self)
        ensures
            r.wf(),
            r.ring@.len() == 0,
            r.next_seq == 1,
            r.dropped == 0,
            r.reported@.len() == 0,
            r.readers == 0,
            r.capacity == capacity,
    {
        EventLog {
            ring: VecDeque::new(),
            next_seq: 1,
            dropped: 0,
            reported: Vec::new(),
            readers: 0,
            capacity,
        }
    }

    /// The number of the oldest event that the coordinator holds.
    ///
    /// For an empty ring this is the number of the next event, so a reader that
    /// starts there loses nothing.
    pub fn first_seq(&self) -> (r: u64)
        requires
            self.wf(),
        ensures
            r == self.first(),
    {
        if self.ring.len() == 0 {
            self.next_seq
        } else {
            self.ring[0].0
        }
    }

    /// The number of the newest event that the coordinator holds.
    pub fn last_seq(&self) -> (r: u64)
        requires
            self.wf(),
        ensures
            r == self.next_seq - 1,
    {
        self.next_seq - 1
    }

    /// The number of events that left the ring.
    pub fn dropped(&self) -> (r: u64)
        ensures
            r == self.dropped,
    {
        self.dropped
    }

    /// Adds the event that `make` makes of its number.
    pub fn push<F: FnOnce(u64) -> Event>(&mut self, make: F)
        requires
            old(self).wf(),
            call_requires(make, (old(self).next_seq,)),
            old(self).next_seq < u64::MAX,
            old(self).dropped < u64::MAX,
        ensures
            final(self).ring@.len() > 0,
            grew(*old(self), *final(self), final(self).ring@.last().1),
            call_ensures(make, (old(self).next_seq,), final(self).ring@.last().1),
    {
        let event = make(self.next_seq);
        self.add(event);
    }

    /// Adds an event with the next number.
    pub fn add(&mut self, event: Event)
        requires
            old(self).wf(),
            old(self).next_seq < u64::MAX,
            old(self).dropped < u64::MAX,
        ensures
            grew(*old(self), *final(self), event),
    {
        let seq: u64 = self.next_seq;
        self.next_seq = seq + 1;
        if self.ring.len() == self.capacity {
            let gone = self.ring.pop_front();
            self.dropped = self.dropped + 1;
        }
        self.ring.push_back((seq, event));
    }

    /// Gives the events after the number `after`, with their numbers.
    pub fn after(&self, after: u64) -> (r: Vec<(u64, Event)>)
        requires
            self.wf(),
        ensures
            entries_after(*self, after as int, r@),
    {
        let mut out: Vec<(u64, Event)> = Vec::new();
        let mut i: usize = 0;
        while i < self.ring.len() && self.ring[i].0 <= after
            invariant
                self.wf(),
                i <= self.ring@.len(),
                i > 0 ==> self.first() + i - 1 <= after,
            decreases self.ring@.len() - i,
        {
            i += 1;
        }
        let ghost start = i as int;
        assert(start == skipped(*self, after as int));
        while i < self.ring.len()
            invariant
                self.wf(),
                start <= i <= self.ring@.len(),
                out@.len() == i - start,
                forall|k: int|
                    0 <= k < out@.len() ==> (#[trigger] out@[k]).0 == self.ring@[start + k].0
                        && out@[k].1.same(self.ring@[start + k].1),
            decreases self.ring@.len() - i,
        {
            let seq: u64 = self.ring[i].0;
            let event = self.ring[i].1.copy();
            out.push((seq, event));
            i += 1;
        }
        out
    }
}

/// How many events of the ring have a number that is not above `after`.
pub open spec fn skipped(log: EventLog, after: int) -> int {
    if after < log.first() {
        0
    } else if after >= log.next_seq {
        log.ring@.len() as int
    } else {
        after + 1 - log.first()
    }
}

/// The list holds the events of the ring whose numbers are above `after`, in
/// their order.
pub open spec fn entries_after(log: EventLog, after: int, list: Seq<(u64, Event)>) -> bool {
    let start = skipped(log, after);
    &&& list.len() == log.ring@.len() - start
    &&& forall|k: int|
        0 <= k < list.len() ==> (#[trigger] list[k]).0 == log.ring@[start + k].0
            && list[k].1.same(log.ring@[start + k].1)
}

/// True when the list holds the event with the number `q`.
pub open spec fn has_number(list: Seq<(u64, Event)>, q: int) -> bool {
    exists|k: int| 0 <= k < list.len() && (#[trigger] list[k]).0 == q
}

/// A reader that asks for the events after a number gets each event after that
/// number that the coordinator holds and no event before it, one time each and
/// in order.
pub proof fn law_after_gives_the_later_events(log: EventLog, after: nat, list: Seq<(u64, Event)>)
    requires
        log.wf(),
        entries_after(log, after as int, list),
    ensures
        forall|k: int|
            0 <= k < list.len() ==> after < (#[trigger] list[k]).0 && list[k].0 == list[0].0 + k,
        forall|q: int|
            after < q < log.next_seq && log.first() <= q ==> #[trigger] has_number(list, q),
{
    let start = skipped(log, after as int);
    assert forall|q: int| after < q < log.next_seq && log.first() <= q implies #[trigger] has_number(
        list,
        q,
    ) by {
        let k = q - log.first() - start;
        assert(list[k].0 == log.ring@[start + k].0);
    }
}

/// The ring after a list of events.
pub open spec fn pushed_all(
    ring: Seq<(u64, Event)>,
    capacity: nat,
    entries: Seq<(u64, Event)>,
) -> Seq<(u64, Event)>
    decreases entries.len(),
{
    if entries.len() == 0 {
        ring
    } else {
        pushed(pushed_all(ring, capacity, entries.drop_last()), capacity, entries.last())
    }
}

/// How many events of the list find the ring full, so that one more event
/// counts as dropped.
pub open spec fn fallen(ring: Seq<(u64, Event)>, capacity: nat, entries: Seq<(u64, Event)>) -> nat
    decreases entries.len(),
{
    if entries.len() == 0 {
        0
    } else {
        let before = entries.drop_last();
        let more: nat = if pushed_all(ring, capacity, before).len() == capacity {
            1
        } else {
            0
        };
        fallen(ring, capacity, before) + more
    }
}

/// The logs are an empty log and what it becomes by one event after the other.
pub open spec fn grown(logs: Seq<EventLog>, events: Seq<Event>) -> bool {
    &&& logs.len() == events.len() + 1
    &&& logs[0].wf()
    &&& logs[0].ring@.len() == 0
    &&& logs[0].next_seq == 1
    &&& logs[0].dropped == 0
    &&& forall|i: int|
        0 <= i < events.len() ==> #[trigger] grew(logs[i], logs[i + 1], events[i])
}

/// After k events the newest number is k, the ring holds the last events, as
/// many as it has places, and each other event is counted as dropped. A reader
/// that asks for everything gets the events that the ring holds in the order of
/// their numbers, and the event with the number n is the n-th one that arrived:
/// a number never repeats.
pub proof fn law_every_event_is_numbered_and_counted(
    logs: Seq<EventLog>,
    events: Seq<Event>,
    list: Seq<(u64, Event)>,
)
    requires
        logs.len() > 0,
        logs[0].capacity > 0,
        grown(logs, events),
        entries_after(logs.last(), 0, list),
    ensures
        ({
            let k = events.len() as int;
            let c = logs[0].capacity as int;
            let log = logs.last();
            let held = if k < c {
                k
            } else {
                c
            };
            &&& log.capacity == c
            &&& log.next_seq - 1 == k
            &&& log.dropped == k - held
            &&& log.first() == log.dropped + 1
            &&& log.ring@.len() == held
            &&& list.len() == held
            &&& forall|j: int|
                0 <= j < list.len() ==> (#[trigger] list[j]).0 == log.dropped + 1 + j
                    && list[j].1.same(events[log.dropped + j])
        }),
{
    lemma_grown(logs, events);
    let log = logs.last();
    assert(skipped(log, 0) == 0);
    assert forall|j: int| 0 <= j < list.len() implies (#[trigger] list[j]).0 == log.dropped + 1 + j
        && list[j].1.same(events[log.dropped + j]) by {
        assert(list[j].0 == log.ring@[0 + j].0);
        assert(log.ring@[j].1 == events[log.dropped + j]);
    }
}

proof fn lemma_grown(logs: Seq<EventLog>, events: Seq<Event>)
    requires
        logs.len() > 0,
        logs[0].capacity > 0,
        grown(logs, events),
    ensures
        logs.last().wf(),
        logs.last().capacity == logs[0].capacity,
        logs.last().next_seq == events.len() + 1,
        logs.last().ring@.len() == (if events.len() < logs[0].capacity {
            events.len() as int
        } else {
            logs[0].capacity as int
        }),
        forall|j: int|
            0 <= j < logs.last().ring@.len() ==> (#[trigger] logs.last().ring@[j]).1
                == events[events.len() - logs.last().ring@.len() + j],
    decreases events.len(),
{
    if events.len() > 0 {
        let n = events.len() - 1;
        let less = logs.drop_last();
        let before = events.drop_last();
        assert forall|i: int| 0 <= i < before.len() implies #[trigger] grew(
            less[i],
            less[i + 1],
            before[i],
        ) by {
            assert(grew(logs[i], logs[i + 1], events[i]));
        }
        lemma_grown(less, before);
        assert(grew(logs[n], logs[n + 1], events[n]));
        assert(less.last() == logs[n]);
        let log = logs.last();
        assert forall|j: int| 0 <= j < log.ring@.len() implies (#[trigger] log.ring@[j]).1
            == events[events.len() - log.ring@.len() + j] by {
            if j < log.ring@.len() - 1 {
                let shift = logs[n].ring@.len() - (log.ring@.len() - 1);
                assert(log.ring@[j] == logs[n].ring@[j + shift]);
            }
        }
    }
}

/// The ring keeps the last events, as many as it has places, and it never
/// grows.
pub proof fn law_the_ring_keeps_the_last_events(
    ring: Seq<(u64, Event)>,
    capacity: nat,
    entries: Seq<(u64, Event)>,
)
    requires
        capacity > 0,
        ring.len() <= capacity,
    ensures
        pushed_all(ring, capacity, entries) == last_entries(ring + entries, capacity),
        pushed_all(ring, capacity, entries).len() <= capacity,
    decreases entries.len(),
{
    if entries.len() == 0 {
        assert(ring + entries == ring);
    } else {
        law_the_ring_keeps_the_last_events(ring, capacity, entries.drop_last());
        let less = ring + entries.drop_last();
        assert(ring + entries == less.push(entries.last()));
        let before = last_entries(less, capacity);
        if before.len() == capacity {
            assert(before.skip(1).push(entries.last()) == last_entries(ring + entries, capacity));
        } else {
            assert(before.push(entries.last()) == last_entries(ring + entries, capacity));
        }
    }
}

/// The reason that a job waits. It belongs to a job in the queue; a job that
/// started or stopped carries none.
pub open spec fn wait_of(status: JobStatus) -> Option<Seq<char>> {
    if status.state is Queued {
        text::opt_view(status.blocked_reason)
    } else {
        None
    }
}

/// What the list reported for the job with the id.
pub open spec fn report_of(list: Seq<Reported>, id: u128) -> Option<(JobState, Option<Seq<char>>)>
    decreases list.len(),
{
    if list.len() == 0 {
        None
    } else if list.last().id == id {
        Some((list.last().state, text::opt_view(list.last().reason)))
    } else {
        report_of(list.drop_last(), id)
    }
}

/// No two entries of the list are about one job.
pub open spec fn one_report_each(list: Seq<Reported>) -> bool {
    forall|i: int, j: int|
        0 <= i < j < list.len() ==> (#[trigger] list[i]).id != (#[trigger] list[j]).id
}

/// What changed about a job since the log reported it.
pub open spec fn change_of(report: Option<(JobState, Option<Seq<char>>)>, status: JobStatus) -> Option<
    Change,
> {
    match report {
        None => Some(Change::State),
        Some((state, reason)) => if state != status.state {
            Some(Change::State)
        } else if reason != wait_of(status) {
            Some(Change::Reason)
        } else {
            None
        },
    }
}

/// The positions of the jobs that changed since the log reported them, in
/// order.
pub open spec fn changed(jobs: Seq<Job>, reported: Seq<Reported>) -> Seq<int>
    decreases jobs.len(),
{
    if jobs.len() == 0 {
        Seq::empty()
    } else {
        let before = changed(jobs.drop_last(), reported);
        let status = jobs.last().status;
        if change_of(report_of(reported, status.id), status) is Some {
            before.push(jobs.len() - 1)
        } else {
            before
        }
    }
}

/// The event says what changed about the job.
pub open spec fn announces(
    event: Event,
    seq: int,
    now: u64,
    status: JobStatus,
    report: Option<(JobState, Option<Seq<char>>)>,
) -> bool {
    event matches Event::Job { seq: q, time, id, name, state, previous, change, job } && {
        &&& q == seq
        &&& time == now
        &&& id == status.id
        &&& name@ == status.name@
        &&& state == status.state
        &&& previous == (match report {
            Some((s, _)) => Some(s),
            None => None,
        })
        &&& Some(change) == change_of(report, status)
        &&& job.same(status)
    }
}

/// The entries are one event for each of the first `n` jobs that changed, with
/// the numbers from `first`.
pub open spec fn announce_all(
    entries: Seq<(u64, Event)>,
    first: int,
    now: u64,
    jobs: Seq<Job>,
    reported: Seq<Reported>,
) -> bool {
    let list = changed(jobs, reported);
    &&& entries.len() == list.len()
    &&& forall|k: int|
        0 <= k < entries.len() ==> (#[trigger] entries[k]).0 == first + k && announces(
            entries[k].1,
            first + k,
            now,
            jobs[list[k]].status,
            report_of(reported, jobs[list[k]].status.id),
        )
}

/// The log reported the present state of each of the first jobs, and what it
/// reported before of each other one.
pub open spec fn reports_follow(
    after: Seq<Reported>,
    before: Seq<Reported>,
    jobs: Seq<Job>,
    n: int,
) -> bool {
    &&& forall|i: int|
        0 <= i < n ==> report_of(after, (#[trigger] jobs[i]).status.id) == Some(
            (jobs[i].status.state, wait_of(jobs[i].status)),
        )
    &&& forall|i: int|
        n <= i < jobs.len() ==> report_of(after, (#[trigger] jobs[i]).status.id) == report_of(
            before,
            jobs[i].status.id,
        )
}

proof fn lemma_report_at(list: Seq<Reported>, i: int)
    requires
        one_report_each(list),
        0 <= i < list.len(),
    ensures
        report_of(list, list[i].id) == Some((list[i].state, text::opt_view(list[i].reason))),
    decreases list.len(),
{
    if i < list.len() - 1 {
        assert(list[i].id != list[list.len() - 1].id);
        lemma_report_at(list.drop_last(), i);
    }
}

proof fn lemma_no_report(list: Seq<Reported>, id: u128)
    ensures
        report_of(list, id) is None <==> forall|i: int|
            0 <= i < list.len() ==> (#[trigger] list[i]).id != id,
    decreases list.len(),
{
    if list.len() > 0 {
        lemma_no_report(list.drop_last(), id);
        assert(list[list.len() - 1].id == list.last().id);
        if report_of(list, id) is None {
            assert forall|i: int| 0 <= i < list.len() implies (#[trigger] list[i]).id != id by {
                if i < list.len() - 1 {
                    assert(list.drop_last()[i].id != id);
                }
            }
        } else if list.last().id != id {
            let k = choose|k: int|
                0 <= k < list.drop_last().len() && (#[trigger] list.drop_last()[k]).id == id;
            assert(list[k].id == id);
        }
    }
}

/// A report that changes for one job changes for no other job.
proof fn lemma_report_changed(a: Seq<Reported>, b: Seq<Reported>, i: int, id: u128)
    requires
        one_report_each(a),
        one_report_each(b),
        a.len() == b.len(),
        0 <= i < a.len(),
        a[i].id == b[i].id,
        forall|k: int| 0 <= k < a.len() && k != i ==> a[k] == b[k],
        id != a[i].id,
    ensures
        report_of(a, id) == report_of(b, id),
    decreases a.len(),
{
    if i == a.len() - 1 {
        assert(a.drop_last() == b.drop_last());
    } else {
        assert(a[a.len() - 1] == b[a.len() - 1]);
        lemma_report_changed(a.drop_last(), b.drop_last(), i, id);
    }
}

/// The text that may be missing is the same.
fn same_opt(a: &Option<String>, b: &Option<String>) -> (r: bool)
    ensures
        r == (text::opt_view(*a) == text::opt_view(*b)),
{
    match (a, b) {
        (Some(x), Some(y)) => text::same(x.as_str(), y.as_str()),
        (None, None) => true,
        _ => false,
    }
}

fn find_report(list: &Vec<Reported>, id: u128) -> (r: Option<usize>)
    requires
        one_report_each(list@),
    ensures
        match r {
            Some(i) => i < list@.len() && list@[i as int].id == id && report_of(list@, id) == Some(
                (list@[i as int].state, text::opt_view(list@[i as int].reason)),
            ),
            None => report_of(list@, id) is None,
        },
{
    let mut i: usize = 0;
    while i < list.len()
        invariant
            one_report_each(list@),
            i <= list@.len(),
            forall|k: int| 0 <= k < i ==> (#[trigger] list@[k]).id != id,
        decreases list@.len() - i,
    {
        if list[i].id == id {
            proof {
                lemma_report_at(list@, i as int);
            }
            return Some(i);
        }
        i += 1;
    }
    proof {
        lemma_no_report(list@, id);
    }
    None
}

/// Takes note of what the log reports for a job now.
fn set_report(list: &mut Vec<Reported>, id: u128, state: JobState, reason: Option<String>)
    requires
        one_report_each(old(list)@),
    ensures
        one_report_each(final(list)@),
        report_of(final(list)@, id) == Some((state, text::opt_view(reason))),
        forall|other: u128|
            other != id ==> #[trigger] report_of(final(list)@, other) == report_of(
                old(list)@,
                other,
            ),
{
    let ghost before = list@;
    match find_report(list, id) {
        Some(i) => {
            list[i] = Reported { id, state, reason };
            proof {
                assert(forall|k: int| 0 <= k < before.len() ==> (#[trigger] list@[k]).id == before[k].id);
                lemma_report_at(list@, i as int);
                assert forall|other: u128| other != id implies #[trigger] report_of(list@, other)
                    == report_of(before, other) by {
                    lemma_report_changed(before, list@, i as int, other);
                }
            }
        },
        None => {
            proof {
                lemma_no_report(before, id);
            }
            list.push(Reported { id, state, reason });
            proof {
                assert(list@.drop_last() == before);
            }
        },
    }
}

/// The entries of the list that are about a job that exists.
pub open spec fn about_jobs(list: Seq<Reported>, jobs: Seq<Job>) -> Seq<Reported>
    decreases list.len(),
{
    if list.len() == 0 {
        Seq::empty()
    } else {
        let before = about_jobs(list.drop_last(), jobs);
        if crate::state::has_job(jobs, list.last().id) {
            before.push(list.last())
        } else {
            before
        }
    }
}

proof fn lemma_about_jobs(list: Seq<Reported>, jobs: Seq<Job>)
    requires
        one_report_each(list),
    ensures
        one_report_each(about_jobs(list, jobs)),
        forall|id: u128| #[trigger]
            report_of(about_jobs(list, jobs), id) == (if crate::state::has_job(jobs, id) {
                report_of(list, id)
            } else {
                None
            }),
        forall|i: int|
            0 <= i < about_jobs(list, jobs).len() ==> crate::state::has_job(
                jobs,
                (#[trigger] about_jobs(list, jobs)[i]).id,
            ) && list.contains(about_jobs(list, jobs)[i]),
    decreases list.len(),
{
    if list.len() > 0 {
        let less = list.drop_last();
        assert(one_report_each(less));
        lemma_about_jobs(less, jobs);
        let before = about_jobs(less, jobs);
        let all = about_jobs(list, jobs);
        assert forall|i: int| 0 <= i < before.len() implies before[i].id != list.last().id
            && list.contains(#[trigger] before[i]) by {
            assert(less.contains(before[i]));
            let k = choose|k: int| 0 <= k < less.len() && less[k] == before[i];
            assert(list[k].id != list[list.len() - 1].id);
            assert(list[k] == before[i]);
        }
        assert(list[list.len() - 1] == list.last());
        if crate::state::has_job(jobs, list.last().id) {
            assert(all.drop_last() == before);
            assert forall|id: u128| #[trigger] report_of(all, id) == (if crate::state::has_job(
                jobs,
                id,
            ) {
                report_of(list, id)
            } else {
                None
            }) by {
                assert(report_of(before, id) == (if crate::state::has_job(jobs, id) {
                    report_of(less, id)
                } else {
                    None
                }));
            }
        } else {
            assert forall|id: u128| #[trigger] report_of(all, id) == (if crate::state::has_job(
                jobs,
                id,
            ) {
                report_of(list, id)
            } else {
                None
            }) by {
                assert(report_of(before, id) == (if crate::state::has_job(jobs, id) {
                    report_of(less, id)
                } else {
                    None
                }));
            }
        }
    }
}

fn keep_about_jobs(list: Vec<Reported>, jobs: &Vec<Job>) -> (r: Vec<Reported>)
    ensures
        r@ == about_jobs(list@, jobs@),
{
    let ghost all = list@;
    let mut rest = list;
    let mut out: Vec<Reported> = Vec::new();
    let ghost mut n: int = 0;
    assert(all.skip(0) == all);
    while rest.len() > 0
        invariant
            0 <= n <= all.len(),
            rest@ == all.skip(n),
            out@ == about_jobs(all.take(n), jobs@),
        decreases rest@.len(),
    {
        let entry = rest.remove(0);
        assert(entry == all[n]);
        assert(rest@ == all.skip(n + 1));
        assert(all.take(n + 1).drop_last() == all.take(n));
        match crate::state::find_job(jobs, entry.id) {
            Some(i) => {
                assert(crate::state::has_job(jobs@, entry.id));
                out.push(entry);
            },
            None => {},
        }
        proof {
            n = n + 1;
        }
    }
    assert(all.take(all.len() as int) == all);
    out
}

/// The records of the stream are in order, and its numbers have space for one
/// event of each job.
pub open spec fn can_publish(state: State) -> bool {
    &&& state.wf()
    &&& state.events.wf()
    &&& one_report_each(state.events.reported@)
    &&& state.events.next_seq + state.jobs@.len() <= u64::MAX
    &&& state.events.dropped + state.jobs@.len() <= u64::MAX
}

/// The second log is the first with one event for each job that changed since
/// its last report, and with the reports of the jobs as they are.
pub open spec fn published(before: EventLog, after: EventLog, jobs: Seq<Job>, now: u64) -> bool {
    &&& after.wf()
    &&& after.readers == before.readers
    &&& after.capacity == before.capacity
    &&& after.next_seq == before.next_seq + changed(jobs, before.reported@).len()
    &&& exists|entries: Seq<(u64, Event)>| #[trigger]
        announce_all(entries, before.next_seq as int, now, jobs, before.reported@)
            && after.ring@ == pushed_all(before.ring@, before.capacity as nat, entries)
            && after.dropped == before.dropped + fallen(
            before.ring@,
            before.capacity as nat,
            entries,
        )
    &&& one_report_each(after.reported@)
    &&& reports_follow(after.reported@, before.reported@, jobs, jobs.len() as int)
    &&& forall|id: u128|
        !crate::state::has_job(jobs, id) ==> #[trigger] report_of(after.reported@, id) is None
}

impl State {
    /// Makes one event for each job record that changed.
    ///
    /// This function is the ONLY writer of the stream. It compares and it
    /// writes nothing when nothing changed, so a call too many costs a
    /// comparison and gives no repeated line.
    ///
    /// It forgets a job that was deleted. The removal gives NO event: a record
    /// that a reader deleted itself is not news, and an id names one job for
    /// ever, so no later event can arrive for it.
    pub fn publish_changes(&mut self, now: u64)
        requires
            can_publish(*old(self)),
        ensures
            *final(self) == (State { events: final(self).events, ..*old(self) }),
            published(old(self).events, final(self).events, old(self).jobs@, now),
    {
        let ghost jobs = self.jobs@;
        let ghost reported = self.events.reported@;
        let ghost ring = self.events.ring@;
        let ghost first = self.events.next_seq as int;
        let ghost capacity = self.events.capacity as nat;
        let ghost mut entries: Seq<(u64, Event)> = Seq::empty();
        let mut i: usize = 0;
        assert(announce_all(entries, first, now, jobs.take(0), reported));
        while i < self.jobs.len()
            invariant
                i <= self.jobs@.len(),
                self.jobs@ == jobs,
                *self == (State { events: self.events, ..*old(self) }),
                crate::state::in_id_order(jobs),
                self.events.wf(),
                self.events.readers == old(self).events.readers,
                self.events.capacity == capacity,
                capacity == old(self).events.capacity,
                first == old(self).events.next_seq,
                self.events.next_seq == first + entries.len(),
                entries.len() <= i,
                self.events.dropped <= old(self).events.dropped + i,
                self.events.dropped == old(self).events.dropped + fallen(ring, capacity, entries),
                old(self).events.next_seq + jobs.len() <= u64::MAX,
                old(self).events.dropped + jobs.len() <= u64::MAX,
                one_report_each(self.events.reported@),
                announce_all(entries, first, now, jobs.take(i as int), reported),
                self.events.ring@ == pushed_all(ring, capacity, entries),
                reports_follow(self.events.reported@, reported, jobs, i as int),
            decreases self.jobs@.len() - i,
        {
            let ghost old_entries = entries;
            let id: u128 = self.jobs[i].status.id;
            let state: JobState = self.jobs[i].status.state;
            let reason: Option<String> = match state {
                JobState::Queued => job::copy_opt(&self.jobs[i].status.blocked_reason),
                _ => None,
            };
            let ghost status = jobs[i as int].status;
            let ghost report = report_of(reported, id);
            let (previous, change): (Option<JobState>, Option<Change>) = match find_report(
                &self.events.reported,
                id,
            ) {
                None => (None, Some(Change::State)),
                Some(k) => {
                    let r = &self.events.reported[k];
                    let change = if r.state != state {
                        Some(Change::State)
                    } else if !same_opt(&r.reason, &reason) {
                        Some(Change::Reason)
                    } else {
                        None
                    };
                    (Some(r.state), change)
                },
            };
            assert(change == change_of(report, status));
            proof {
                assert(jobs.take(i + 1).drop_last() == jobs.take(i as int));
                assert(jobs.take(i + 1).last() == jobs[i as int]);
            }
            let ghost before = self.events.reported@;
            match change {
                None => {
                    proof {
                        lemma_announce_none(entries, first, now, jobs, reported, i as int);
                    }
                },
                Some(change) => {
                    let event = Event::Job {
                        seq: self.events.next_seq,
                        time: now,
                        id,
                        name: self.jobs[i].status.name.clone(),
                        state,
                        previous,
                        change,
                        job: Box::new(self.jobs[i].status.copy()),
                    };
                    let ghost entry = (self.events.next_seq, event);
                    self.events.add(event);
                    set_report(&mut self.events.reported, id, state, reason);
                    proof {
                        entries = entries.push(entry);
                        assert(entries.drop_last() == old_entries);
                        lemma_announce_one(old_entries, entry, first, now, jobs, reported, i as int);
                        assert forall|k: int| 0 <= k < jobs.len() && k != i implies report_of(
                            self.events.reported@,
                            (#[trigger] jobs[k]).status.id,
                        ) == report_of(before, jobs[k].status.id) by {
                            assert(jobs[k].status.id != id) by {
                                if k < i {
                                    assert(jobs[k].status.id < jobs[i as int].status.id);
                                } else {
                                    assert(jobs[i as int].status.id < jobs[k].status.id);
                                }
                            }
                        }
                    }
                },
            }
            i += 1;
        }
        assert(jobs.take(jobs.len() as int) == jobs);
        // Forget the jobs that were deleted. Without this step the list grows
        // for as long as the coordinator operates.
        let mut list: Vec<Reported> = Vec::new();
        std::mem::swap(&mut list, &mut self.events.reported);
        let ghost all = list@;
        let kept = keep_about_jobs(list, &self.jobs);
        self.events.reported = kept;
        proof {
            lemma_about_jobs(all, jobs);
            assert forall|k: int| 0 <= k < jobs.len() implies crate::state::has_job(
                jobs,
                (#[trigger] jobs[k]).status.id,
            ) by {}
        }
    }
}

proof fn lemma_changed_bound(jobs: Seq<Job>, reported: Seq<Reported>)
    ensures
        changed(jobs, reported).len() <= jobs.len(),
        forall|k: int|
            0 <= k < changed(jobs, reported).len() ==> 0 <= #[trigger] changed(jobs, reported)[k]
                < jobs.len(),
    decreases jobs.len(),
{
    if jobs.len() > 0 {
        lemma_changed_bound(jobs.drop_last(), reported);
    }
}

proof fn lemma_announce_none(
    entries: Seq<(u64, Event)>,
    first: int,
    now: u64,
    jobs: Seq<Job>,
    reported: Seq<Reported>,
    i: int,
)
    requires
        0 <= i < jobs.len(),
        announce_all(entries, first, now, jobs.take(i), reported),
        change_of(report_of(reported, jobs[i].status.id), jobs[i].status) is None,
    ensures
        announce_all(entries, first, now, jobs.take(i + 1), reported),
{
    let less = jobs.take(i);
    let more = jobs.take(i + 1);
    assert(more.drop_last() == less);
    lemma_changed_bound(less, reported);
    let list = changed(less, reported);
    assert(changed(more, reported) == list);
    assert forall|k: int| 0 <= k < entries.len() implies (#[trigger] entries[k]).0 == first + k
        && announces(
        entries[k].1,
        first + k,
        now,
        more[list[k]].status,
        report_of(reported, more[list[k]].status.id),
    ) by {
        assert(more[list[k]] == less[list[k]]);
    }
}

proof fn lemma_announce_one(
    entries: Seq<(u64, Event)>,
    entry: (u64, Event),
    first: int,
    now: u64,
    jobs: Seq<Job>,
    reported: Seq<Reported>,
    i: int,
)
    requires
        0 <= i < jobs.len(),
        announce_all(entries, first, now, jobs.take(i), reported),
        entry.0 == first + entries.len(),
        announces(
            entry.1,
            first + entries.len(),
            now,
            jobs[i].status,
            report_of(reported, jobs[i].status.id),
        ),
    ensures
        announce_all(entries.push(entry), first, now, jobs.take(i + 1), reported),
{
    let less = jobs.take(i);
    let more = jobs.take(i + 1);
    assert(more.drop_last() == less);
    lemma_changed_bound(less, reported);
    let list = changed(less, reported);
    let all = entries.push(entry);
    assert(changed(more, reported) == list.push(i));
    assert forall|k: int| 0 <= k < all.len() implies (#[trigger] all[k]).0 == first + k
        && announces(
        all[k].1,
        first + k,
        now,
        more[list.push(i)[k]].status,
        report_of(reported, more[list.push(i)[k]].status.id),
    ) by {
        if k < entries.len() {
            assert(all[k] == entries[k]);
            assert(more[list[k]] == less[list[k]]);
        }
    }
}

/// A repeat gives no line: where the log reported the present state of each
/// job, no job counts as changed.
pub proof fn law_a_repeat_gives_no_line(
    after: Seq<Reported>,
    before: Seq<Reported>,
    jobs: Seq<Job>,
)
    requires
        reports_follow(after, before, jobs, jobs.len() as int),
    ensures
        changed(jobs, after).len() == 0,
    decreases jobs.len(),
{
    if jobs.len() > 0 {
        let less = jobs.drop_last();
        assert(reports_follow(after, before, less, less.len() as int)) by {
            assert forall|i: int| 0 <= i < less.len() implies report_of(
                after,
                (#[trigger] less[i]).status.id,
            ) == Some((less[i].status.state, wait_of(less[i].status))) by {
                assert(less[i] == jobs[i]);
            }
        }
        law_a_repeat_gives_no_line(after, before, less);
        assert(jobs[jobs.len() - 1] == jobs.last());
    }
}

/// The lines that a stream begins with, and the number of the event that comes
/// after them.
#[derive(Debug)]
pub struct Opening {
    pub lead: Vec<Event>,
    pub next: u64,
}

/// What one look at the log gives to a reader.
#[derive(Debug)]
pub struct Batch {
    /// The line that counts the events that the reader lost.
    pub gap: Option<Event>,
    pub events: Vec<(u64, Event)>,
    /// The number of the event that comes after these ones.
    pub next: u64,
    /// True when the coordinator stops, so the stream ends after these events.
    pub stopping: bool,
}

/// The reason of a gap before the start of a stream.
pub open spec fn left_before() -> Seq<char> {
    "the coordinator keeps the last events only, and these events left it before you connected"@
}

/// The reason of a gap for a number that comes from a different coordinator.
pub open spec fn other_coordinator(n: nat, pid: nat, started_at: nat, first: nat, last: nat) -> Seq<
    char,
> {
    "you asked for the events after "@ + text::digits(n) + ", and this coordinator (pid "@
        + text::digits(pid) + ", started at "@ + text::digits(started_at) + ") holds "@
        + text::digits(first) + " to "@ + text::digits(last)
        + ". It started after your number, so the stream continues with what it holds."@
}

/// The event is a gap line.
pub open spec fn is_gap(
    e: Event,
    now: u64,
    missed: Option<u64>,
    next_seq: int,
    why: Seq<char>,
) -> bool {
    e matches Event::Gap { time, missed: m, next_seq: q, reason } && time == now && m == missed && q
        == next_seq && reason@ == why
}

/// The first line of a stream.
pub open spec fn is_first_line(
    e: Event,
    now: u64,
    version: Seq<char>,
    pid: u32,
    started_at: u64,
    first: int,
    last: int,
) -> bool {
    e matches Event::Stream {
        time,
        version: v,
        pid: p,
        coordinator_started_at,
        first_seq,
        last_seq,
    } && time == now && v@ == version && p == pid as i32 && coordinator_started_at == started_at
        && first_seq == first && last_seq == last
}

/// How a stream begins: the first line, a gap line where the reader lost events
/// or gave a number of a different coordinator, and the number to go on with.
///
/// A gap line counts the lost events. Only for a number of a different
/// coordinator it has no count.
pub open spec fn opens(
    o: Opening,
    log: EventLog,
    cursor: Cursor,
    now: u64,
    version: Seq<char>,
    pid: u32,
    started_at: u64,
) -> bool {
    let first = log.first();
    let last = log.next_seq - 1;
    let lead = o.lead@;
    &&& lead.len() >= 1
    &&& is_first_line(lead[0], now, version, pid, started_at, first, last)
    &&& match cursor {
        Cursor::Start => {
            &&& o.next == first
            &&& if log.dropped > 0 {
                lead.len() == 2 && is_gap(lead[1], now, Some(log.dropped), first, left_before())
            } else {
                lead.len() == 1
            }
        },
        Cursor::Now => o.next == last + 1 && lead.len() == 1,
        Cursor::After(n) => if n > last {
            &&& o.next == first
            &&& lead.len() == 2
            &&& is_gap(
                lead[1],
                now,
                None,
                first,
                other_coordinator(
                    n as nat,
                    pid as nat,
                    started_at as nat,
                    first as nat,
                    last as nat,
                ),
            )
        } else if n + 1 < first {
            &&& o.next == first
            &&& lead.len() == 2
            &&& is_gap(lead[1], now, Some((first - (n + 1)) as u64), first, left_before())
        } else {
            o.next == n + 1 && lead.len() == 1
        },
    }
}

/// Gives the lines that a stream begins with.
///
/// The coordinator holds the last events only. The lines say how many events
/// the reader cannot get, so "everything that you have" never reads as
/// "everything that happened".
pub fn open_stream(
    log: &EventLog,
    cursor: Cursor,
    now: u64,
    version: &str,
    pid: u32,
    started_at: u64,
) -> (r: Opening)
    requires
        log.wf(),
    ensures
        opens(r, *log, cursor, now, version@, pid, started_at),
{
    let first: u64 = log.first_seq();
    let last: u64 = log.last_seq();
    let mut lead: Vec<Event> = Vec::new();
    lead.push(
        Event::Stream {
            time: now,
            version: text::owned(version),
            pid: pid as i32,
            coordinator_started_at: started_at,
            first_seq: first,
            last_seq: last,
        },
    );
    let next: u64 = match cursor {
        Cursor::Start => {
            if log.dropped() > 0 {
                lead.push(
                    Event::Gap {
                        time: now,
                        missed: Some(log.dropped()),
                        next_seq: first,
                        reason: text::owned(
                            "the coordinator keeps the last events only, and these events left it before you connected",
                        ),
                    },
                );
            }
            first
        },
        Cursor::Now => last + 1,
        Cursor::After(n) => {
            if n > last {
                // The number comes from a different coordinator. The records of
                // the jobs continue over a restart; the events do not.
                let mut reason = text::owned("you asked for the events after ");
                reason.append(text::decimal(n).as_str());
                reason.append(", and this coordinator (pid ");
                reason.append(text::decimal(pid as u64).as_str());
                reason.append(", started at ");
                reason.append(text::decimal(started_at).as_str());
                reason.append(") holds ");
                reason.append(text::decimal(first).as_str());
                reason.append(" to ");
                reason.append(text::decimal(last).as_str());
                reason.append(
                    ". It started after your number, so the stream continues with what it holds.",
                );
                lead.push(Event::Gap { time: now, missed: None, next_seq: first, reason });
                first
            } else if n + 1 < first {
                lead.push(
                    Event::Gap {
                        time: now,
                        missed: Some(first - (n + 1)),
                        next_seq: first,
                        reason: text::owned(
                            "the coordinator keeps the last events only, and these events left it before you connected",
                        ),
                    },
                );
                first
            } else {
                n + 1
            }
        },
    };
    Opening { lead, next }
}

/// The reason of a gap for a reader that is too slow.
pub open spec fn too_slow() -> Seq<char> {
    "you did not read the stream fast enough, and the coordinator dropped these events. Read the stream in a loop, and do the work in a different thread or process."@
}

/// What a reader that waits for the event `next` gets from the log.
pub open spec fn gives(b: Batch, log: EventLog, next: u64, now: u64, stop: bool) -> bool {
    let from = if next < log.first() {
        log.first()
    } else {
        next as int
    };
    &&& match b.gap {
        Some(e) => next < log.first() && is_gap(
            e,
            now,
            Some((log.first() - next) as u64),
            log.first(),
            too_slow(),
        ),
        None => next >= log.first(),
    }
    &&& entries_after(log, from - 1, b.events@)
    &&& b.next == (if from < log.next_seq {
        log.next_seq as int
    } else {
        from
    })
    &&& b.stopping == stop
}

/// Gives what a reader that waits for the event `next` gets from the log now.
///
/// The ring can pass a reader while it writes. The loss is counted, and the
/// stream continues from the oldest event that the coordinator still holds.
pub fn next_batch(log: &EventLog, next: u64, now: u64, stop: bool) -> (r: Batch)
    requires
        log.wf(),
        next >= 1,
    ensures
        gives(r, *log, next, now, stop),
{
    let first: u64 = log.first_seq();
    let mut from: u64 = next;
    let gap = if next < first {
        from = first;
        Some(
            Event::Gap {
                time: now,
                missed: Some(first - next),
                next_seq: first,
                reason: text::owned(
                    "you did not read the stream fast enough, and the coordinator dropped these events. Read the stream in a loop, and do the work in a different thread or process.",
                ),
            },
        )
    } else {
        None
    };
    let events = log.after(from - 1);
    let after: u64 = if from < log.next_seq {
        log.next_seq
    } else {
        from
    };
    Batch { gap, events, next: after, stopping: stop }
}

/// The last line of a stream.
pub fn bye(now: u64) -> (r: Event)
    ensures
        r matches Event::Bye { time, reason } && time == now && reason@
            == "the coordinator stops, because no job operates and no command arrived for the idle time. The records of the jobs stay on the disk. The next qex command starts a coordinator."@,
{
    Event::Bye {
        time: now,
        reason: text::owned(
            "the coordinator stops, because no job operates and no command arrived for the idle time. The records of the jobs stay on the disk. The next qex command starts a coordinator.",
        ),
    }
}

/// The events that a batch counts as lost.
pub open spec fn lost(b: Batch) -> nat {
    match b.gap {
        Some(Event::Gap { missed: Some(n), .. }) => n as nat,
        _ => 0,
    }
}

/// A stream loses no event in silence: of the events from the one that the
/// reader waits for to the newest one, the reader gets each event that the
/// coordinator holds, and the gap line counts all the others.
pub proof fn law_a_stream_loses_nothing_in_silence(
    b: Batch,
    log: EventLog,
    next: u64,
    now: u64,
    stop: bool,
)
    requires
        log.wf(),
        1 <= next <= log.next_seq,
        gives(b, log, next, now, stop),
    ensures
        b.next == log.next_seq,
        lost(b) + b.events@.len() == log.next_seq - next,
        forall|k: int|
            0 <= k < b.events@.len() ==> (#[trigger] b.events@[k]).0 == next + lost(b) + k,
{
}

/// One look of a reader at the log: the log at that moment, and what the reader
/// got.
pub struct Glance {
    pub log: EventLog,
    pub batch: Batch,
    pub now: u64,
    pub stop: bool,
}

/// The number of the event that comes after the looks.
pub open spec fn reached(list: Seq<Glance>, start: u64) -> u64 {
    if list.len() == 0 {
        start
    } else {
        list.last().batch.next
    }
}

/// The looks of one reader, one after the other, from the event `start` on.
pub open spec fn reads(list: Seq<Glance>, start: u64) -> bool
    decreases list.len(),
{
    list.len() > 0 ==> {
        let look = list.last();
        let next = reached(list.drop_last(), start);
        &&& reads(list.drop_last(), start)
        &&& look.log.wf()
        &&& next <= look.log.next_seq
        &&& gives(look.batch, look.log, next, look.now, look.stop)
    }
}

/// The events that the looks count as lost.
pub open spec fn all_lost(list: Seq<Glance>) -> nat
    decreases list.len(),
{
    if list.len() == 0 {
        0
    } else {
        all_lost(list.drop_last()) + lost(list.last().batch)
    }
}

/// The numbers of the events that the reader got, in the order in which it got
/// them.
pub open spec fn all_numbers(list: Seq<Glance>) -> Seq<u64>
    decreases list.len(),
{
    if list.len() == 0 {
        Seq::empty()
    } else {
        all_numbers(list.drop_last()) + list.last().batch.events@.map_values(
            |e: (u64, Event)| e.0,
        )
    }
}

/// A reader that looks again and again, however slowly, gets each event at most
/// one time and in the order of the numbers, and the events that it got and the
/// events that the gap lines count are together all the events of the stream.
pub proof fn law_a_whole_stream_is_complete(list: Seq<Glance>, start: u64)
    requires
        start >= 1,
        reads(list, start),
    ensures
        reached(list, start) >= start,
        all_numbers(list).len() + all_lost(list) == reached(list, start) - start,
        forall|k: int|
            0 <= k < all_numbers(list).len() ==> start <= #[trigger] all_numbers(list)[k]
                < reached(list, start),
        forall|i: int, j: int|
            0 <= i < j < all_numbers(list).len() ==> #[trigger] all_numbers(list)[i]
                < #[trigger] all_numbers(list)[j],
    decreases list.len(),
{
    if list.len() > 0 {
        let before = list.drop_last();
        let look = list.last();
        law_a_whole_stream_is_complete(before, start);
        law_a_stream_loses_nothing_in_silence(
            look.batch,
            look.log,
            reached(before, start),
            look.now,
            look.stop,
        );
        let new = look.batch.events@.map_values(|e: (u64, Event)| e.0);
        assert forall|k: int| 0 <= k < new.len() implies #[trigger] new[k] == reached(before, start)
            + lost(look.batch) + k by {
            assert(new[k] == look.batch.events@[k].0);
        }
    }
}

/// A stream that starts with everything that the coordinator holds counts all
/// the events before that: the events from the first one of the coordinator on
/// are either counted as missed or come with the stream.
pub proof fn law_the_start_counts_what_left(
    o: Opening,
    log: EventLog,
    now: u64,
    version: Seq<char>,
    pid: u32,
    started_at: u64,
)
    requires
        log.wf(),
        log.capacity > 0,
        opens(o, log, Cursor::Start, now, version, pid, started_at),
    ensures
        ({
            let missed = if o.lead@.len() == 2 {
                match o.lead@[1] {
                    Event::Gap { missed: Some(n), .. } => n as int,
                    _ => 0,
                }
            } else {
                0
            };
            missed + 1 == o.next
        }),
{
}

/// A reader that gives the last number that it read loses nothing: where the
/// coordinator still holds the next event, the stream goes on with it and has
/// no gap line.
pub proof fn law_a_kept_number_loses_nothing(
    o: Opening,
    log: EventLog,
    n: u64,
    now: u64,
    version: Seq<char>,
    pid: u32,
    started_at: u64,
)
    requires
        log.wf(),
        log.first() <= n + 1 <= log.next_seq,
        opens(o, log, Cursor::After(n), now, version, pid, started_at),
    ensures
        o.next == n + 1,
        o.lead@.len() == 1,
{
}

/// The number of a job line.
pub open spec fn job_number(e: Event) -> Option<u64> {
    match e {
        Event::Job { seq, .. } => Some(seq),
        _ => None,
    }
}

/// The events that a line counts as missed.
pub open spec fn missed_of(e: Event) -> nat {
    match e {
        Event::Gap { missed: Some(n), .. } => n as nat,
        _ => 0,
    }
}

/// The ring holds job lines only, each under its own number.
pub open spec fn holds_job_lines(ring: Seq<(u64, Event)>) -> bool {
    forall|k: int| 0 <= k < ring.len() ==> job_number((#[trigger] ring[k]).1) == Some(ring[k].0)
}

proof fn lemma_pushed_job_lines(
    ring: Seq<(u64, Event)>,
    capacity: nat,
    entries: Seq<(u64, Event)>,
)
    requires
        holds_job_lines(ring),
        holds_job_lines(entries),
    ensures
        holds_job_lines(pushed_all(ring, capacity, entries)),
    decreases entries.len(),
{
    if entries.len() > 0 {
        let less = entries.drop_last();
        assert forall|k: int| 0 <= k < less.len() implies job_number((#[trigger] less[k]).1) == Some(
            less[k].0,
        ) by {
            assert(less[k] == entries[k]);
        }
        lemma_pushed_job_lines(ring, capacity, less);
        let before = pushed_all(ring, capacity, less);
        let after = pushed_all(ring, capacity, entries);
        assert(entries[entries.len() - 1] == entries.last());
        assert forall|k: int| 0 <= k < after.len() implies job_number((#[trigger] after[k]).1)
            == Some(after[k].0) by {
            if k < after.len() - 1 {
                let shift = before.len() - (after.len() - 1);
                assert(after[k] == before[k + shift]);
            }
        }
    }
}

/// The log holds job lines only: an empty log does, and `publish_changes`, the
/// only writer of the stream, keeps that true.
pub proof fn law_the_log_holds_job_lines(before: EventLog, after: EventLog, jobs: Seq<Job>, now: u64)
    requires
        holds_job_lines(before.ring@),
        published(before, after, jobs, now),
    ensures
        holds_job_lines(after.ring@),
{
    let entries = choose|entries: Seq<(u64, Event)>| #[trigger]
        announce_all(entries, before.next_seq as int, now, jobs, before.reported@) && after.ring@
            == pushed_all(before.ring@, before.capacity as nat, entries);
    assert forall|k: int| 0 <= k < entries.len() implies job_number((#[trigger] entries[k]).1)
        == Some(entries[k].0) by {
        let list = changed(jobs, before.reported@);
        assert(announces(
            entries[k].1,
            before.next_seq + k,
            now,
            jobs[list[k]].status,
            report_of(before.reported@, jobs[list[k]].status.id),
        ));
    }
    lemma_pushed_job_lines(before.ring@, before.capacity as nat, entries);
}

/// The lines that one look sends to the reader.
pub open spec fn lines_of(b: Batch) -> Seq<Event> {
    let gap = match b.gap {
        Some(e) => seq![e],
        None => Seq::empty(),
    };
    gap + b.events@.map_values(|e: (u64, Event)| e.1)
}

/// The lines that the looks send to the reader.
pub open spec fn all_lines(list: Seq<Glance>) -> Seq<Event>
    decreases list.len(),
{
    if list.len() == 0 {
        Seq::empty()
    } else {
        all_lines(list.drop_last()) + lines_of(list.last().batch)
    }
}

/// Every line of a stream that ends.
pub open spec fn stream_lines(o: Opening, list: Seq<Glance>, end: Event) -> Seq<Event> {
    o.lead@ + all_lines(list) + seq![end]
}

/// The sum of what the lines count as missed.
pub open spec fn sum_missed(lines: Seq<Event>) -> nat
    decreases lines.len(),
{
    if lines.len() == 0 {
        0
    } else {
        sum_missed(lines.drop_last()) + missed_of(lines.last())
    }
}

/// The lines at `i` and `j` are job lines, and no job line stands between them.
pub open spec fn neighbours(lines: Seq<Event>, i: int, j: int) -> bool {
    &&& 0 <= i < j < lines.len()
    &&& job_number(lines[i]) is Some
    &&& job_number(lines[j]) is Some
    &&& forall|k: int| i < k < j ==> job_number(#[trigger] lines[k]) is None
}

/// Between two job lines that follow each other, the gap lines count exactly the
/// numbers that are missing. The numbers rise, and they follow each other exactly
/// where no line stands between the two.
pub open spec fn gaps_are_counted(lines: Seq<Event>) -> bool {
    forall|i: int, j: int| #[trigger]
        neighbours(lines, i, j) ==> {
            let a = job_number(lines[i])->0;
            let b = job_number(lines[j])->0;
            &&& a < b
            &&& sum_missed(lines.subrange(i + 1, j)) == b - a - 1
            &&& b == a + 1 <==> j == i + 1
        }
}

/// How many numbers the lines stand for.
spec fn weight(lines: Seq<Event>) -> nat
    decreases lines.len(),
{
    if lines.len() == 0 {
        0
    } else {
        weight(lines.drop_last()) + if job_number(lines.last()) is Some {
            1
        } else {
            missed_of(lines.last())
        }
    }
}

/// A line that stands for numbers: a job line, or a gap line that counts.
spec fn counts(e: Event) -> bool {
    job_number(e) is Some || (e is Gap && missed_of(e) > 0)
}

/// The lines stand for the numbers from `start` on, each job line for its own.
spec fn numbered(lines: Seq<Event>, start: int) -> bool {
    forall|k: int|
        0 <= k < lines.len() ==> counts(#[trigger] lines[k]) && (job_number(lines[k]) matches Some(
            n,
        ) ==> n == start + weight(lines.take(k + 1)) - 1)
}

proof fn lemma_weight_join(a: Seq<Event>, b: Seq<Event>)
    ensures
        weight(a + b) == weight(a) + weight(b),
    decreases b.len(),
{
    if b.len() == 0 {
        assert(a + b == a);
    } else {
        assert((a + b).drop_last() == a + b.drop_last());
        assert((a + b).last() == b.last());
        lemma_weight_join(a, b.drop_last());
    }
}

proof fn lemma_weight_of_jobs(s: Seq<Event>)
    requires
        forall|k: int| 0 <= k < s.len() ==> job_number(#[trigger] s[k]) is Some,
    ensures
        weight(s) == s.len(),
    decreases s.len(),
{
    if s.len() > 0 {
        let less = s.drop_last();
        assert forall|k: int| 0 <= k < less.len() implies job_number(#[trigger] less[k]) is Some by {
            assert(less[k] == s[k]);
        }
        lemma_weight_of_jobs(less);
        assert(job_number(s[s.len() - 1]) is Some);
    }
}

proof fn lemma_weight_of_gaps(s: Seq<Event>)
    requires
        forall|k: int| 0 <= k < s.len() ==> job_number(#[trigger] s[k]) is None,
    ensures
        weight(s) == sum_missed(s),
    decreases s.len(),
{
    if s.len() > 0 {
        let less = s.drop_last();
        assert forall|k: int| 0 <= k < less.len() implies job_number(#[trigger] less[k]) is None by {
            assert(less[k] == s[k]);
        }
        lemma_weight_of_gaps(less);
        assert(job_number(s[s.len() - 1]) is None);
    }
}

proof fn lemma_missed_part(s: Seq<Event>, k: int)
    requires
        0 <= k < s.len(),
    ensures
        missed_of(s[k]) <= sum_missed(s),
    decreases s.len(),
{
    if k < s.len() - 1 {
        lemma_missed_part(s.drop_last(), k);
    }
}

proof fn lemma_numbered_join(a: Seq<Event>, b: Seq<Event>, start: int)
    requires
        numbered(a, start),
        numbered(b, start + weight(a)),
    ensures
        numbered(a + b, start),
{
    let s = a + b;
    assert forall|k: int| 0 <= k < s.len() implies counts(#[trigger] s[k]) && (job_number(
        s[k],
    ) matches Some(n) ==> n == start + weight(s.take(k + 1)) - 1) by {
        if k < a.len() {
            assert(s[k] == a[k]);
            assert(s.take(k + 1) == a.take(k + 1));
        } else {
            let j = k - a.len();
            assert(s[k] == b[j]);
            assert(s.take(k + 1) == a + b.take(j + 1));
            lemma_weight_join(a, b.take(j + 1));
        }
    }
}

proof fn lemma_batch_numbered(look: Glance, next: u64)
    requires
        look.log.wf(),
        holds_job_lines(look.log.ring@),
        1 <= next <= look.log.next_seq,
        gives(look.batch, look.log, next, look.now, look.stop),
    ensures
        numbered(lines_of(look.batch), next as int),
        weight(lines_of(look.batch)) == look.batch.next - next,
{
    let b = look.batch;
    let log = look.log;
    let jobs = b.events@.map_values(|e: (u64, Event)| e.1);
    let gap: Seq<Event> = match b.gap {
        Some(e) => seq![e],
        None => Seq::empty(),
    };
    law_a_stream_loses_nothing_in_silence(b, log, next, look.now, look.stop);
    let from = if next < log.first() {
        log.first()
    } else {
        next as int
    };
    let start = skipped(log, from - 1);
    assert forall|k: int| 0 <= k < jobs.len() implies job_number(#[trigger] jobs[k]) == Some(
        b.events@[k].0,
    ) by {
        assert(b.events@[k].1.same(log.ring@[start + k].1));
        assert(job_number(log.ring@[start + k].1) == Some(log.ring@[start + k].0));
    }
    assert(weight(gap) == lost(b)) by {
        if b.gap is Some {
            assert(gap.drop_last() == Seq::<Event>::empty());
            assert(weight(gap.drop_last()) == 0);
            assert(gap.last() == b.gap->0);
        }
    }
    assert(numbered(gap, next as int)) by {
        if b.gap is Some {
            assert(gap[0] == b.gap->0);
            assert(missed_of(gap[0]) > 0);
        }
    }
    assert(numbered(jobs, next + weight(gap))) by {
        assert forall|k: int| 0 <= k < jobs.len() implies counts(#[trigger] jobs[k]) && (job_number(
            jobs[k],
        ) matches Some(n) ==> n == next + weight(gap) + weight(jobs.take(k + 1)) - 1) by {
            let part = jobs.take(k + 1);
            assert forall|j: int| 0 <= j < part.len() implies job_number(#[trigger] part[j]) is Some by {
                assert(part[j] == jobs[j]);
            }
            lemma_weight_of_jobs(part);
            assert(job_number(jobs[k]) == Some(b.events@[k].0));
        }
    }
    lemma_numbered_join(gap, jobs, next as int);
    lemma_weight_join(gap, jobs);
    lemma_weight_of_jobs(jobs);
}

proof fn lemma_all_numbered(list: Seq<Glance>, start: u64)
    requires
        start >= 1,
        reads(list, start),
        forall|g: int| 0 <= g < list.len() ==> holds_job_lines((#[trigger] list[g]).log.ring@),
    ensures
        numbered(all_lines(list), start as int),
        weight(all_lines(list)) == reached(list, start) - start,
    decreases list.len(),
{
    if list.len() > 0 {
        let before = list.drop_last();
        assert forall|g: int| 0 <= g < before.len() implies holds_job_lines(
            (#[trigger] before[g]).log.ring@,
        ) by {
            assert(before[g] == list[g]);
        }
        lemma_all_numbered(before, start);
        law_a_whole_stream_is_complete(before, start);
        assert(list[list.len() - 1] == list.last());
        lemma_batch_numbered(list.last(), reached(before, start));
        lemma_numbered_join(all_lines(before), lines_of(list.last().batch), start as int);
        lemma_weight_join(all_lines(before), lines_of(list.last().batch));
    }
}

proof fn lemma_gaps(lines: Seq<Event>, start: int)
    requires
        numbered(lines, start),
    ensures
        gaps_are_counted(lines),
{
    assert forall|i: int, j: int| #[trigger] neighbours(lines, i, j) implies {
        let a = job_number(lines[i])->0;
        let b = job_number(lines[j])->0;
        &&& a < b
        &&& sum_missed(lines.subrange(i + 1, j)) == b - a - 1
        &&& b == a + 1 <==> j == i + 1
    } by {
        let between = lines.subrange(i + 1, j);
        let first = lines.take(i + 1);
        assert(lines.take(j + 1).drop_last() == first + between);
        assert(lines.take(j + 1).last() == lines[j]);
        lemma_weight_join(first, between);
        assert forall|k: int| 0 <= k < between.len() implies job_number(
            #[trigger] between[k],
        ) is None by {
            assert(between[k] == lines[i + 1 + k]);
        }
        lemma_weight_of_gaps(between);
        if j > i + 1 {
            assert(between[0] == lines[i + 1]);
            assert(counts(lines[i + 1]));
            lemma_missed_part(between, 0);
        } else {
            assert(between.len() == 0);
        }
    }
}

/// The lines of a whole stream, whatever the reader asks for: the first line is
/// the line of the stream and the last one the goodbye, only gap lines and job
/// lines stand between them, and the gap lines between two job lines that follow
/// each other count exactly the events that the reader lost there.
pub proof fn law_the_lines_of_a_stream(
    o: Opening,
    log: EventLog,
    cursor: Cursor,
    now: u64,
    version: Seq<char>,
    pid: u32,
    started_at: u64,
    list: Seq<Glance>,
    end: Event,
)
    requires
        log.wf(),
        opens(o, log, cursor, now, version, pid, started_at),
        reads(list, o.next),
        forall|g: int| 0 <= g < list.len() ==> holds_job_lines((#[trigger] list[g]).log.ring@),
        end is Bye,
    ensures
        ({
            let lines = stream_lines(o, list, end);
            &&& lines[0] is Stream
            &&& lines.last() is Bye
            &&& forall|k: int|
                0 < k < lines.len() - 1 ==> (#[trigger] lines[k]) is Gap || lines[k] is Job
            &&& gaps_are_counted(lines)
        }),
{
    let lead = o.lead@;
    let body = all_lines(list);
    let lines = stream_lines(o, list, end);
    lemma_all_numbered(list, o.next);
    lemma_gaps(body, o.next as int);
    let n = lead.len() as int;
    assert forall|k: int| 0 < k < lines.len() - 1 implies (#[trigger] lines[k]) is Gap
        || lines[k] is Job by {
        if k >= n {
            assert(lines[k] == body[k - n]);
            assert(counts(body[k - n]));
        } else {
            assert(lines[k] == lead[k]);
        }
    }
    assert forall|i: int, j: int| #[trigger] neighbours(lines, i, j) implies {
        let a = job_number(lines[i])->0;
        let b = job_number(lines[j])->0;
        &&& a < b
        &&& sum_missed(lines.subrange(i + 1, j)) == b - a - 1
        &&& b == a + 1 <==> j == i + 1
    } by {
        if i < n {
            assert(lines[i] == lead[i]);
        }
        if j == lines.len() - 1 {
            assert(lines[j] == end);
        }
        assert(lines[i] == body[i - n] && lines[j] == body[j - n]);
        assert forall|k: int| i - n < k < j - n implies job_number(#[trigger] body[k]) is None by {
            assert(lines[k + n] == body[k]);
        }
        assert(neighbours(body, i - n, j - n));
        assert(lines.subrange(i + 1, j) == body.subrange(i - n + 1, j - n));
    }
}

/// One more job gives an event exactly where the log reported nothing of it, or
/// another state, or, for a job that waits, another reason.
pub proof fn law_which_jobs_give_an_event(jobs: Seq<Job>, job: Job, reported: Seq<Reported>)
    ensures
        ({
            let report = report_of(reported, job.status.id);
            let reason = if job.status.state == JobState::Queued && job.status.blocked_reason is Some {
                Some(job.status.blocked_reason->0@)
            } else {
                None
            };
            let news = report is None || report->0 != (job.status.state, reason);
            changed(jobs.push(job), reported) == if news {
                changed(jobs, reported).push(jobs.len() as int)
            } else {
                changed(jobs, reported)
            }
        }),
        changed(Seq::empty(), reported).len() == 0,
{
    assert(jobs.push(job).drop_last() == jobs);
}

/// An event about a state is one whose job had another state before, or none;
/// an event about a reason is one whose job stays in its state.
pub proof fn law_why_an_event_exists(
    event: Event,
    seq: int,
    now: u64,
    status: JobStatus,
    report: Option<(JobState, Option<Seq<char>>)>,
)
    requires
        announces(event, seq, now, status, report),
    ensures
        event is Job && event->Job_id == status.id && event->Job_state == status.state
            && event->Job_seq == seq && event->Job_time == now,
        event->Job_change == Change::State <==> event->Job_previous != Some(status.state),
        report is None <==> event->Job_previous is None,
{
}

/// What the log reported of a job is what its one entry says.
pub proof fn law_a_report_is_found(list: Seq<Reported>, i: int)
    requires
        one_report_each(list),
        0 <= i < list.len(),
    ensures
        report_of(list, list[i].id) == Some((list[i].state, text::opt_view(list[i].reason))),
        report_of(Seq::empty(), list[i].id) is None,
    decreases list.len(),
{
    if i < list.len() - 1 {
        let less = list.drop_last();
        assert forall|a: int, b: int| 0 <= a < b < less.len() implies (#[trigger] less[a]).id != (
        #[trigger] less[b]).id by {
            assert(list[a].id != list[b].id);
        }
        assert(less[i] == list[i]);
        law_a_report_is_found(less, i);
        assert(list[i].id != list[list.len() - 1].id);
    }
}

/// A stream goes on with the oldest event that is held, with the next new one,
/// or with the one behind the number of the reader. The reader is told of each
/// event between its number and the oldest one that is held.
pub proof fn law_where_a_stream_begins(
    log: &EventLog,
    cursor: Cursor,
    now: u64,
    version: &str,
    pid: u32,
    started_at: u64,
    r: Opening,
    n: u64,
)
    requires
        log.wf(),
        log.ring@.len() > 0,
        call_ensures(open_stream, (log, cursor, now, version, pid, started_at), r),
    ensures
        cursor is Start ==> r.next == log.ring@[0].0,
        cursor is Now ==> r.next == log.ring@.last().0 + 1 && r.lead@.len() == 1,
        cursor == Cursor::After(n) && log.ring@[0].0 <= n + 1 && n <= log.ring@.last().0 ==> r.next
            == n + 1 && r.lead@.len() == 1,
        cursor == Cursor::After(n) && n + 1 < log.ring@[0].0 ==> r.next == log.ring@[0].0
            && r.lead@.len() == 2 && r.lead@[1] is Gap && r.lead@[1]->missed == Some(
            (log.ring@[0].0 - n - 1) as u64,
        ),
        cursor == Cursor::After(n) && n > log.ring@.last().0 ==> r.next == log.ring@[0].0
            && r.lead@.len() == 2 && r.lead@[1] is Gap && r.lead@[1]->missed is None,
{
    assert(log.ring@[0].0 == log.first());
    assert(log.ring@[log.ring@.len() - 1].0 == log.next_seq - 1);
}

/// A reader that waits gets each event from the one that it waits for, and a
/// line about the others exactly where some of them are gone.
pub proof fn law_what_a_reader_gets(
    log: &EventLog,
    next: u64,
    now: u64,
    stop: bool,
    r: Batch,
)
    requires
        log.wf(),
        1 <= next <= log.next_seq,
        call_ensures(next_batch, (log, next, now, stop), r),
    ensures
        r.gap is Some <==> next < log.next_seq - log.ring@.len(),
        lost(r) + r.events@.len() == log.next_seq - next,
        r.next == log.next_seq,
        r.stopping == stop,
{
    law_a_stream_loses_nothing_in_silence(r, *log, next, now, stop);
}

/// A second look with no change between gives no line: the numbers and the ring
/// stay as they were.
pub proof fn law_a_second_publish_gives_nothing(
    first: &mut State,
    second: &mut State,
    now: u64,
    later: u64,
    a: (),
    b: (),
)
    requires
        call_ensures(State::publish_changes, (first, now), a),
        *old(second) == *final(first),
        call_ensures(State::publish_changes, (second, later), b),
    ensures
        final(second).events.next_seq == final(first).events.next_seq,
        final(second).events.ring@ == final(first).events.ring@,
        final(second).events.dropped == final(first).events.dropped,
        final(second).jobs == final(first).jobs && final(second).queue == final(first).queue,
{
    let log = final(first).events;
    let jobs = old(first).jobs@;
    law_a_repeat_gives_no_line(log.reported@, old(first).events.reported@, jobs);
    let entries = choose|entries: Seq<(u64, Event)>| #[trigger]
        announce_all(entries, log.next_seq as int, later, jobs, log.reported@) && final(second).events.ring@ == pushed_all(log.ring@, log.capacity as nat, entries) && final(second).events.dropped == log.dropped + fallen(log.ring@, log.capacity as nat, entries);
    assert(entries.len() == 0);
}

/// A job that changed gives one event with its new state and the state before,
/// under the next number.
pub proof fn law_a_change_gives_one_event(state: &mut State, now: u64, a: (), job: Job)
    requires
        call_ensures(State::publish_changes, (state, now), a),
        old(state).jobs@ == seq![job],
        old(state).events.capacity > 0,
        old(state).events.wf(),
        report_of(old(state).events.reported@, job.status.id) is Some,
        (report_of(old(state).events.reported@, job.status.id)->0).0 != job.status.state,
    ensures
        final(state).events.next_seq == old(state).events.next_seq + 1,
        final(state).events.ring@.len() > 0,
        ({
            let event = final(state).events.ring@.last().1;
            &&& event is Job && event->Job_id == job.status.id && event->Job_state
                == job.status.state && event->Job_seq == old(state).events.next_seq
                && event->Job_change == Change::State
            &&& event->Job_previous == Some(
                (report_of(old(state).events.reported@, job.status.id)->0).0,
            )
        }),
{
    let before = old(state).events;
    let jobs = old(state).jobs@;
    let none = Seq::<Job>::empty();
    assert(jobs == none.push(job));
    law_which_jobs_give_an_event(none, job, before.reported@);
    let list = changed(jobs, before.reported@);
    assert(list == Seq::<int>::empty().push(0));
    let entries = choose|entries: Seq<(u64, Event)>| #[trigger]
        announce_all(entries, before.next_seq as int, now, jobs, before.reported@) && final(state).events.ring@ == pushed_all(before.ring@, before.capacity as nat, entries) && final(state).events.dropped == before.dropped + fallen(
            before.ring@,
            before.capacity as nat,
            entries,
        );
    assert(entries.len() == 1);
    assert(entries[0].0 == before.next_seq);
    assert(jobs[list[0]] == job);
    assert(entries.drop_last() == Seq::<(u64, Event)>::empty());
    assert(pushed_all(before.ring@, before.capacity as nat, entries.drop_last()) == before.ring@);
    assert(final(state).events.ring@.last() == entries[0]);
}

/// One more event gets the next number and stands at the end of the ring. The
/// oldest event goes exactly where the ring was full, and it counts as dropped.
pub proof fn law_one_more_event(log: &mut EventLog, event: Event, r: ())
    requires
        old(log).wf(),
        old(log).capacity > 0,
        call_ensures(EventLog::add, (log, event), r),
    ensures
        final(log).next_seq == old(log).next_seq + 1,
        final(log).ring@.len() > 0 && final(log).ring@.last() == (old(log).next_seq, event),
        old(log).ring@.len() < old(log).capacity ==> final(log).dropped == old(log).dropped
            && final(log).ring@.len() == old(log).ring@.len() + 1,
        old(log).ring@.len() == old(log).capacity ==> final(log).dropped == old(log).dropped + 1
            && final(log).ring@.len() == old(log).ring@.len(),
        final(log).readers == old(log).readers && final(log).capacity == old(log).capacity,
{
}

/// The first line of a stream names the coordinator and the events that it holds,
/// and each other line of its start is a gap of this moment before the oldest
/// event.
pub proof fn law_the_first_lines_of_a_stream(
    log: &EventLog,
    cursor: Cursor,
    now: u64,
    version: &str,
    pid: u32,
    started_at: u64,
    r: Opening,
)
    requires
        log.wf(),
        pid <= i32::MAX,
        call_ensures(open_stream, (log, cursor, now, version, pid, started_at), r),
    ensures
        1 <= r.lead@.len() <= 2,
        r.lead@[0] matches Event::Stream {
            time,
            version: v,
            pid: p,
            coordinator_started_at,
            first_seq,
            last_seq,
        } && time == now && v@ == version@ && p == pid && coordinator_started_at == started_at
            && first_seq == log.next_seq - log.ring@.len() && last_seq == log.next_seq - 1,
        r.lead@.len() == 2 ==> (r.lead@[1] matches Event::Gap { time, next_seq, .. } && time == now
            && next_seq == log.next_seq - log.ring@.len()),
        log.dropped > 0 && cursor is Start ==> r.lead@.len() == 2,
{
}

/// A gap in the middle of a stream counts the events between the one that the
/// reader waits for and the oldest one that is held, at this moment.
pub proof fn law_the_gap_of_a_slow_reader(
    log: &EventLog,
    next: u64,
    now: u64,
    stop: bool,
    r: Batch,
)
    requires
        log.wf(),
        next >= 1,
        call_ensures(next_batch, (log, next, now, stop), r),
        r.gap is Some,
    ensures
        r.gap->0 matches Event::Gap { time, missed, next_seq, .. } && time == now && next_seq
            == log.next_seq - log.ring@.len() && missed is Some && missed->0 + next == next_seq,
{
}

/// A copy of a line says the same as the line.
pub proof fn law_a_copy_says_the_same(e: &Event, r: Event)
    requires
        call_ensures(Event::copy, (e,), r),
    ensures
        *e is Job ==> r is Job && r->Job_seq == (*e)->Job_seq && r->Job_id == (*e)->Job_id
            && r->Job_state == (*e)->Job_state && r->Job_previous == (*e)->Job_previous
            && r->Job_change == (*e)->Job_change && r->Job_time == (*e)->Job_time
            && r->Job_name@ == (*e)->Job_name@,
        *e is Gap ==> r is Gap && r->missed == (*e)->missed && r->next_seq == (*e)->next_seq
            && r->Gap_time == (*e)->Gap_time,
        *e is Stream ==> r is Stream && r->first_seq == (*e)->first_seq && r->last_seq
            == (*e)->last_seq && r->Stream_time == (*e)->Stream_time && r->pid == (*e)->pid
            && r->coordinator_started_at == (*e)->coordinator_started_at && r->version@
            == (*e)->version@,
        *e is Bye ==> r is Bye && r->Bye_time == (*e)->Bye_time,
{
}

} // verus!

//! What the coordinator holds in its memory.

use crate::events::EventLog;
use crate::job::{JobSpec, JobState, JobStatus};
use crate::pause::{Paused, QueueEnd};
use vstd::prelude::*;

verus! {

/// One job of the coordinator.
#[derive(Debug)]
pub struct Job {
    pub spec: JobSpec,
    pub status: JobStatus,
    /// The supervisor, where this coordinator started it.
    pub supervisor_pid: Option<i32>,
}

/// A key that a job holds: while it does, a submission with the key gives this
/// job and starts no second one.
#[derive(Debug)]
pub struct HeldKey {
    pub key: String,
    pub id: u128,
}

/// What the coordinator holds.
pub struct State {
    /// The jobs, in the order of their ids.
    pub jobs: Vec<Job>,
    /// The ids of the jobs that wait, in the order of the queue.
    pub queue: Vec<u128>,
    /// The dedupe keys that jobs hold.
    pub keys: Vec<HeldKey>,
    /// The moment since which no job has operated.
    pub idle_since: Option<u64>,
    /// The moment when this coordinator started.
    pub started_at: u64,
    pub events: EventLog,
    pub paused: Paused,
    /// True when the coordinator stops.
    pub stop: bool,
}

/// Each id is larger than the one before it, so no two jobs have one id.
pub open spec fn in_id_order(jobs: Seq<Job>) -> bool {
    forall|i: int, j: int|
        0 <= i < j < jobs.len() ==> (#[trigger] jobs[i]).status.id < (#[trigger] jobs[j]).status.id
}

/// True when the list holds a job with the id.
pub open spec fn has_job(jobs: Seq<Job>, id: u128) -> bool {
    exists|i: int| 0 <= i < jobs.len() && (#[trigger] jobs[i]).status.id == id
}

/// The position of the first job with the id, from position `i`.
pub open spec fn job_from(jobs: Seq<Job>, id: u128, i: nat) -> Option<nat>
    decreases jobs.len() - i,
{
    if i >= jobs.len() {
        None
    } else if jobs[i as int].status.id == id {
        Some(i)
    } else {
        job_from(jobs, id, i + 1)
    }
}

/// The position of the job with the id.
pub open spec fn job_at(jobs: Seq<Job>, id: u128) -> Option<nat> {
    job_from(jobs, id, 0)
}

pub proof fn lemma_job_from(jobs: Seq<Job>, id: u128, i: nat)
    ensures
        job_from(jobs, id, i) matches Some(k) ==> i <= k < jobs.len() && jobs[k as int].status.id
            == id,
        job_from(jobs, id, i) is None ==> forall|k: int|
            i <= k < jobs.len() ==> (#[trigger] jobs[k]).status.id != id,
    decreases jobs.len() - i,
{
    if i < jobs.len() && jobs[i as int].status.id != id {
        lemma_job_from(jobs, id, i + 1);
    }
}

/// Gives the position of the job with the id.
pub fn find_job(jobs: &Vec<Job>, id: u128) -> (r: Option<usize>)
    ensures
        match r {
            Some(i) => {
                &&& i < jobs@.len()
                &&& jobs@[i as int].status.id == id
                &&& job_at(jobs@, id) == Some(i as nat)
            },
            None => !has_job(jobs@, id) && job_at(jobs@, id) is None,
        },
{
    let mut i: usize = 0;
    while i < jobs.len()
        invariant
            i <= jobs@.len(),
            job_at(jobs@, id) == job_from(jobs@, id, i as nat),
            forall|k: int| 0 <= k < i ==> (#[trigger] jobs@[k]).status.id != id,
        decreases jobs@.len() - i,
    {
        if jobs[i].status.id == id {
            return Some(i);
        }
        i += 1;
    }
    None
}

/// Tests if the list holds the id.
pub fn holds_id(list: &Vec<u128>, id: u128) -> (r: bool)
    ensures
        r == list@.contains(id),
{
    let mut i: usize = 0;
    while i < list.len()
        invariant
            i <= list@.len(),
            forall|k: int| 0 <= k < i ==> list@[k] != id,
        decreases list@.len() - i,
    {
        if list[i] == id {
            return true;
        }
        i += 1;
    }
    false
}

/// The keys that other jobs hold.
pub open spec fn keys_of_others(keys: Seq<HeldKey>, id: u128) -> Seq<HeldKey>
    decreases keys.len(),
{
    if keys.len() == 0 {
        Seq::empty()
    } else if keys.last().id == id {
        keys_of_others(keys.drop_last(), id)
    } else {
        keys_of_others(keys.drop_last(), id).push(keys.last())
    }
}

pub proof fn lemma_keys_of_others(keys: Seq<HeldKey>, id: u128)
    ensures
        forall|k: int|
            0 <= k < keys_of_others(keys, id).len() ==> (#[trigger] keys_of_others(
                keys,
                id,
            )[k]).id != id && keys.contains(keys_of_others(keys, id)[k]),
    decreases keys.len(),
{
    if keys.len() > 0 {
        let less = keys.drop_last();
        lemma_keys_of_others(less, id);
        let all = keys_of_others(keys, id);
        assert forall|k: int| 0 <= k < all.len() implies (#[trigger] all[k]).id != id
            && keys.contains(all[k]) by {
            let before = keys_of_others(less, id);
            if k < before.len() {
                assert(less.contains(before[k]));
                let j = choose|j: int| 0 <= j < less.len() && less[j] == before[k];
                assert(keys[j] == all[k]);
            } else {
                assert(keys[keys.len() - 1] == all[k]);
            }
        }
    }
}

/// Frees the key of a job. The keys of the other jobs stay.
pub fn release_dedupe(state: &mut State, id: u128)
    ensures
        *final(state) == (State { keys: final(state).keys, ..*old(state) }),
        final(state).keys@ == keys_of_others(old(state).keys@, id),
{
    let ghost all = state.keys@;
    let mut rest: Vec<HeldKey> = Vec::new();
    std::mem::swap(&mut rest, &mut state.keys);
    let mut kept: Vec<HeldKey> = Vec::new();
    let ghost mut n: int = 0;
    assert(all.skip(0) == all);
    while rest.len() > 0
        invariant
            0 <= n <= all.len(),
            rest@ == all.skip(n),
            kept@ == keys_of_others(all.take(n), id),
        decreases rest@.len(),
    {
        let held = rest.remove(0);
        assert(held == all[n]);
        assert(rest@ == all.skip(n + 1));
        assert(all.take(n + 1).drop_last() == all.take(n));
        if held.id != id {
            kept.push(held);
        }
        proof {
            n = n + 1;
        }
    }
    assert(all.take(all.len() as int) == all);
    state.keys = kept;
}

/// The part of a pause from `paused_at` to `now` in which a job that was
/// submitted at `submitted_at` waited.
pub open spec fn credit(submitted_at: nat, paused_at: nat, now: nat) -> nat {
    let start = if submitted_at < paused_at {
        paused_at
    } else {
        submitted_at
    };
    if now < start {
        0
    } else {
        (now - start) as nat
    }
}

/// True when the end of a pause gives time back to the job: it waits in the
/// queue, and a part of the pause passed while it did.
pub open spec fn gains(job: Job, queue: Seq<u128>, paused_at: nat, now: nat) -> bool {
    &&& queue.contains(job.status.id)
    &&& job.status.state is Queued
    &&& credit(job.status.submitted_at as nat, paused_at, now) > 0
}

/// The job after the end of a pause.
pub open spec fn credited(job: Job, queue: Seq<u128>, paused_at: nat, now: nat) -> Job {
    if gains(job, queue, paused_at, now) {
        Job {
            status: JobStatus {
                queue_pause_secs: (job.status.queue_pause_secs + credit(
                    job.status.submitted_at as nat,
                    paused_at,
                    now,
                )) as u64,
                ..job.status
            },
            ..job
        }
    } else {
        job
    }
}

impl State {
    /// The jobs are in the order of their ids.
    pub open spec fn wf(self) -> bool {
        in_id_order(self.jobs@)
    }
}

/// Adds the length of a pause of the QUEUE to each job that waited through it,
/// and gives the ids of the jobs whose records changed.
///
/// `--max-queue-time` means "the work has no value after this much time in the
/// queue", and a person who holds the machine is not the queue. The clock of
/// the limit therefore stops while the queue is paused.
///
/// `paused_at` is the moment when the pause began, and `now` is the moment when
/// it ended. A job that was submitted DURING the pause takes the part of the
/// pause after its submission, and no more. A clock that moved back gives no
/// credit.
pub fn credit_paused_wait(state: &mut State, paused_at: u64, now: u64) -> (r: Vec<u128>)
    requires
        forall|i: int|
            0 <= i < old(state).jobs@.len() && gains(
                #[trigger] old(state).jobs@[i],
                old(state).queue@,
                paused_at as nat,
                now as nat,
            ) ==> old(state).jobs@[i].status.queue_pause_secs + credit(
                old(state).jobs@[i].status.submitted_at as nat,
                paused_at as nat,
                now as nat,
            ) <= u64::MAX,
    ensures
        *final(state) == (State { jobs: final(state).jobs, ..*old(state) }),
        final(state).jobs@.len() == old(state).jobs@.len(),
        forall|i: int|
            0 <= i < old(state).jobs@.len() ==> #[trigger] final(state).jobs@[i] == credited(
                old(state).jobs@[i],
                old(state).queue@,
                paused_at as nat,
                now as nat,
            ),
        forall|id: u128| #[trigger]
            r@.contains(id) <==> exists|i: int|
                0 <= i < old(state).jobs@.len() && (#[trigger] old(state).jobs@[i]).status.id == id
                    && gains(
                    old(state).jobs@[i],
                    old(state).queue@,
                    paused_at as nat,
                    now as nat,
                ),
{
    let ghost before = state.jobs@;
    let ghost queue = state.queue@;
    let mut changed: Vec<u128> = Vec::new();
    let mut i: usize = 0;
    while i < state.jobs.len()
        invariant
            i <= state.jobs@.len(),
            state.jobs@.len() == before.len(),
            state.queue@ == queue,
            *state == (State { jobs: state.jobs, ..*old(state) }),
            before == old(state).jobs@,
            queue == old(state).queue@,
            forall|k: int|
                0 <= k < before.len() && gains(
                    #[trigger] before[k],
                    queue,
                    paused_at as nat,
                    now as nat,
                ) ==> before[k].status.queue_pause_secs + credit(
                    before[k].status.submitted_at as nat,
                    paused_at as nat,
                    now as nat,
                ) <= u64::MAX,
            forall|k: int|
                0 <= k < i ==> #[trigger] state.jobs@[k] == credited(
                    before[k],
                    queue,
                    paused_at as nat,
                    now as nat,
                ),
            forall|k: int| i <= k < before.len() ==> #[trigger] state.jobs@[k] == before[k],
            forall|id: u128| #[trigger]
                changed@.contains(id) <==> exists|k: int|
                    0 <= k < i && (#[trigger] before[k]).status.id == id && gains(
                        before[k],
                        queue,
                        paused_at as nat,
                        now as nat,
                    ),
        decreases state.jobs@.len() - i,
    {
        let id: u128 = state.jobs[i].status.id;
        let at: u64 = state.jobs[i].status.submitted_at;
        let start: u64 = if at < paused_at {
            paused_at
        } else {
            at
        };
        let waits = match state.jobs[i].status.state {
            JobState::Queued => true,
            _ => false,
        };
        let ghost earlier = changed@;
        if waits && now > start && holds_id(&state.queue, id) {
            assert(before[i as int].status.id == id);
            let extra: u64 = now - start;
            state.jobs[i].status.queue_pause_secs = state.jobs[i].status.queue_pause_secs + extra;
            changed.push(id);
            assert forall|x: u128| #[trigger] changed@.contains(x) <==> earlier.contains(x) || x
                == id by {
                if earlier.contains(x) {
                    let k = choose|k: int| 0 <= k < earlier.len() && earlier[k] == x;
                    assert(changed@[k] == x);
                }
                assert(changed@[earlier.len() as int] == id);
            }
            assert(gains(before[i as int], queue, paused_at as nat, now as nat));
        }
        i += 1;
    }
    changed
}

/// Ends a pause of the QUEUE, whatever ended it: a resume, an end that was
/// reached while the coordinator operates, or one that was reached while none
/// did. Gives the ids of the jobs whose records changed.
///
/// The caller has ALREADY removed the last request, and it gives the end here.
/// The time that the pause took from `--max-queue-time` goes back, and the
/// timer of an idle machine starts again: a paused queue is idle by
/// construction, and without this the first job to start would be an oversized
/// job, alone, in front of everything that waited.
pub fn end_queue_pause(state: &mut State, end: QueueEnd, now: u64) -> (r: Vec<u128>)
    requires
        forall|i: int|
            0 <= i < old(state).jobs@.len() && gains(
                #[trigger] old(state).jobs@[i],
                old(state).queue@,
                end.since as nat,
                end.ended_at as nat,
            ) ==> old(state).jobs@[i].status.queue_pause_secs + credit(
                old(state).jobs@[i].status.submitted_at as nat,
                end.since as nat,
                end.ended_at as nat,
            ) <= u64::MAX,
    ensures
        *final(state) == (State {
            jobs: final(state).jobs,
            idle_since: Some(now),
            ..*old(state)
        }),
        final(state).jobs@.len() == old(state).jobs@.len(),
        forall|i: int|
            0 <= i < old(state).jobs@.len() ==> #[trigger] final(state).jobs@[i] == credited(
                old(state).jobs@[i],
                old(state).queue@,
                end.since as nat,
                end.ended_at as nat,
            ),
        forall|id: u128| #[trigger]
            r@.contains(id) <==> exists|i: int|
                0 <= i < old(state).jobs@.len() && (#[trigger] old(state).jobs@[i]).status.id == id
                    && gains(
                    old(state).jobs@[i],
                    old(state).queue@,
                    end.since as nat,
                    end.ended_at as nat,
                ),
{
    let changed = credit_paused_wait(state, end.since, end.ended_at);
    state.idle_since = Some(now);
    changed
}

/// A pause takes nothing from the limit of a job: the time that the job waited
/// and that was not paused is the same before and after the pause, for a job
/// that waited in the queue through all of it.
pub proof fn law_a_pause_costs_no_queue_time(job: Job, queue: Seq<u128>, paused_at: nat, now: nat)
    requires
        queue.contains(job.status.id),
        job.status.state is Queued,
        job.status.submitted_at <= paused_at <= now,
        job.status.queue_pause_secs + now - paused_at <= u64::MAX,
    ensures
        now - job.status.submitted_at - credited(job, queue, paused_at, now).status.queue_pause_secs
            == paused_at - job.status.submitted_at - job.status.queue_pause_secs,
{
}

/// A record is found by its id, at its place, and an id with no record is found
/// nowhere.
pub proof fn law_a_job_is_found_by_its_id(jobs: Seq<Job>, id: u128, i: nat)
    requires
        in_id_order(jobs),
    ensures
        job_at(jobs, id) == Some(i) <==> i < jobs.len() && jobs[i as int].status.id == id,
        job_at(jobs, id) is None <==> forall|k: int|
            0 <= k < jobs.len() ==> (#[trigger] jobs[k]).status.id != id,
{
    lemma_job_from(jobs, id, 0);
    if i < jobs.len() && jobs[i as int].status.id == id {
        let k = job_at(jobs, id)->0;
        assert(jobs[k as int].status.id == jobs[i as int].status.id);
    }
}

/// A release frees the keys of one job and of no other one: each other key
/// stays, in its order.
pub proof fn law_a_release_frees_one_job(keys: Seq<HeldKey>, key: HeldKey, id: u128)
    ensures
        key.id == id ==> keys_of_others(keys.push(key), id) == keys_of_others(keys, id),
        key.id != id ==> keys_of_others(keys.push(key), id) == keys_of_others(keys, id).push(key),
        keys_of_others(Seq::empty(), id).len() == 0,
{
    assert(keys.push(key).drop_last() == keys);
}

/// A job gets back the seconds of the pause in which it waited: those after the
/// start of the pause and after its own submission, and none where the clock
/// stands before them.
pub proof fn law_what_a_pause_gives_back(submitted_at: nat, paused_at: nat, now: nat)
    ensures
        submitted_at <= paused_at <= now ==> credit(submitted_at, paused_at, now) == now - paused_at,
        paused_at <= submitted_at <= now ==> credit(submitted_at, paused_at, now) == now
            - submitted_at,
        now <= paused_at || now <= submitted_at ==> credit(submitted_at, paused_at, now) == 0,
{
}

/// The end of a pause changes one number in the record of a job, and only of a
/// job that waits in the queue.
pub proof fn law_a_pause_changes_only_the_wait(
    job: Job,
    queue: Seq<u128>,
    paused_at: nat,
    now: nat,
)
    requires
        job.status.queue_pause_secs + credit(job.status.submitted_at as nat, paused_at, now)
            <= u64::MAX,
    ensures
        credited(job, queue, paused_at, now) == (Job {
            status: JobStatus {
                queue_pause_secs: credited(job, queue, paused_at, now).status.queue_pause_secs,
                ..job.status
            },
            ..job
        }),
        queue.contains(job.status.id) && job.status.state == JobState::Queued ==> credited(
            job,
            queue,
            paused_at,
            now,
        ).status.queue_pause_secs == job.status.queue_pause_secs + credit(
            job.status.submitted_at as nat,
            paused_at,
            now,
        ),
        !queue.contains(job.status.id) || job.status.state != JobState::Queued ==> credited(
            job,
            queue,
            paused_at,
            now,
        ) == job,
{
}

/// The end of a pause gives each job that waits in the queue the seconds of the
/// pause in which it waited, changes no other job, and starts the timer of an
/// idle machine again.
pub proof fn law_what_the_end_of_a_pause_does(
    state: &mut State,
    end: QueueEnd,
    now: u64,
    r: Vec<u128>,
    i: int,
)
    requires
        0 <= i < old(state).jobs@.len(),
        old(state).jobs@[i].status.queue_pause_secs + credit(
            old(state).jobs@[i].status.submitted_at as nat,
            end.since as nat,
            end.ended_at as nat,
        ) <= u64::MAX,
        call_ensures(end_queue_pause, (state, end, now), r),
    ensures
        final(state).idle_since == Some(now),
        final(state).queue == old(state).queue && final(state).paused == old(state).paused,
        old(state).queue@.contains(old(state).jobs@[i].status.id) && old(state).jobs@[i].status.state == JobState::Queued && old(state).jobs@[i].status.submitted_at
            <= end.since <= end.ended_at ==> final(state).jobs@[i].status.queue_pause_secs == old(state).jobs@[i].status.queue_pause_secs + (end.ended_at - end.since),
        !old(state).queue@.contains(old(state).jobs@[i].status.id) || old(state).jobs@[i].status.state != JobState::Queued ==> final(state).jobs@[i] == old(state).jobs@[i],
{
    law_a_pause_changes_only_the_wait(
        old(state).jobs@[i],
        old(state).queue@,
        end.since as nat,
        end.ended_at as nat,
    );
    law_what_a_pause_gives_back(
        old(state).jobs@[i].status.submitted_at as nat,
        end.since as nat,
        end.ended_at as nat,
    );
}

/// A release frees each key of the job, keeps each key of another job, and
/// changes nothing else.
pub proof fn law_what_a_release_does(state: &mut State, id: u128, r: (), k: int)
    requires
        call_ensures(release_dedupe, (state, id), r),
        0 <= k < old(state).keys@.len(),
    ensures
        final(state).jobs == old(state).jobs && final(state).queue == old(state).queue,
        forall|m: int| 0 <= m < final(state).keys@.len() ==> (#[trigger] final(state).keys@[m]).id
            != id,
        old(state).keys@[k].id != id ==> final(state).keys@.contains(old(state).keys@[k]),
{
    lemma_keys_of_others(old(state).keys@, id);
    if old(state).keys@[k].id != id {
        lemma_other_key_stays(old(state).keys@, id, k);
    }
}

proof fn lemma_other_key_stays(keys: Seq<HeldKey>, id: u128, k: int)
    requires
        0 <= k < keys.len(),
        keys[k].id != id,
    ensures
        keys_of_others(keys, id).contains(keys[k]),
    decreases keys.len(),
{
    let all = keys_of_others(keys, id);
    if k < keys.len() - 1 {
        lemma_other_key_stays(keys.drop_last(), id, k);
        let less = keys_of_others(keys.drop_last(), id);
        let m = less.index_of(keys[k]);
        assert(all[m] == keys[k]);
    } else {
        assert(all.last() == keys[k]);
    }
}

/// The position of a job is the one of the record with its id.
pub proof fn law_where_a_job_is(jobs: &Vec<Job>, id: u128, r: Option<usize>, i: int)
    requires
        in_id_order(jobs@),
        call_ensures(find_job, (jobs, id), r),
        0 <= i < jobs@.len(),
    ensures
        jobs@[i].status.id == id ==> r == Some(i as usize),
        r is Some ==> r->0 < jobs@.len() && jobs@[r->0 as int].status.id == id,
{
    law_a_job_is_found_by_its_id(jobs@, id, i as nat);
    lemma_job_from(jobs@, id, 0);
}

/// The records that a pause changed are exactly those of the jobs that it gave
/// time back to.
pub proof fn law_which_records_a_pause_changed(
    state: &mut State,
    paused_at: u64,
    now: u64,
    r: Vec<u128>,
    i: int,
)
    requires
        old(state).wf(),
        0 <= i < old(state).jobs@.len(),
        old(state).jobs@[i].status.queue_pause_secs + credit(
            old(state).jobs@[i].status.submitted_at as nat,
            paused_at as nat,
            now as nat,
        ) <= u64::MAX,
        call_ensures(credit_paused_wait, (state, paused_at, now), r),
    ensures
        r@.contains(old(state).jobs@[i].status.id) <==> final(state).jobs@[i].status.queue_pause_secs != old(state).jobs@[i].status.queue_pause_secs,
{
    let jobs = old(state).jobs@;
    let id = jobs[i].status.id;
    if r@.contains(id) {
        let k = choose|k: int|
            0 <= k < jobs.len() && (#[trigger] jobs[k]).status.id == id && gains(
                jobs[k],
                old(state).queue@,
                paused_at as nat,
                now as nat,
            );
        if k < i {
            assert(jobs[k].status.id < jobs[i].status.id);
        } else if i < k {
            assert(jobs[i].status.id < jobs[k].status.id);
        }
    }
    assert(final(state).jobs@[i] == credited(
        jobs[i],
        old(state).queue@,
        paused_at as nat,
        now as nat,
    ));
}

} // verus!

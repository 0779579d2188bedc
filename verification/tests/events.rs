use qex::events::{bye, next_batch, open_stream, Change, Cursor, Event, EventLog, RETAINED};
use qex::job::{JobSpec, JobState, JobStatus};
use qex::pause::{Paused, QueueEnd};
use qex::state::{credit_paused_wait, end_queue_pause, find_job, holds_id, Job, State};

fn event(seq: u64) -> Event {
    Event::Bye {
        time: seq,
        reason: String::new(),
    }
}

fn one_job_state() -> State {
    let spec = JobSpec {
        id: 5,
        name: "t".into(),
        cwd: "/".into(),
        command: vec!["true".into()],
        cpu: 1,
        mem: 1 << 20,
        tags: vec![],
        claim_source: "explicit".into(),
        group: None,
        group_name: None,
        locks: vec![],
        retries: 0,
        needs: vec![],
        after: vec![],
        submitted_at: 0,
        dedupe_key: None,
    };
    let status = JobStatus::new(&spec);
    State {
        jobs: vec![Job {
            spec,
            status,
            supervisor_pid: None,
        }],
        queue: Vec::new(),
        keys: Vec::new(),
        idle_since: None,
        started_at: 0,
        events: EventLog::with_capacity(RETAINED),
        paused: Paused::default(),
        stop: false,
    }
}

/// The ring must hold the last events only, and it must count the events that
/// left it. A count that is wrong makes a gap line that lies.
#[test]
fn the_ring_holds_the_last_events_and_counts_the_others() {
    let mut log = EventLog::with_capacity(RETAINED);
    assert_eq!(log.first_seq(), 1, "an empty log starts at the next number");
    assert_eq!(log.last_seq(), 0);

    for _ in 0..RETAINED {
        log.push(event);
    }
    assert_eq!(log.first_seq(), 1);
    assert_eq!(log.last_seq(), RETAINED as u64);
    assert_eq!(log.dropped(), 0);

    // Ten more events push ten events out of the ring.
    for _ in 0..10 {
        log.push(event);
    }
    assert_eq!(log.dropped(), 10);
    assert_eq!(log.first_seq(), 11);
    assert_eq!(log.last_seq(), RETAINED as u64 + 10);
    assert_eq!(log.after(0).len(), RETAINED);
}

/// A reader asks for the events after a number, and it must receive each event
/// after that number and no event before it.
#[test]
fn a_reader_receives_the_events_after_its_number_only() {
    let mut log = EventLog::with_capacity(RETAINED);
    for _ in 0..5 {
        log.push(event);
    }
    let got: Vec<u64> = log.after(2).iter().map(|(seq, _)| *seq).collect();
    assert_eq!(got, vec![3, 4, 5]);
    assert!(
        log.after(5).is_empty(),
        "a reader that is current gets nothing"
    );
}

/// The numbers must never repeat. A reader keeps the last number, and a
/// repeated number would make it lose an event after a restart.
#[test]
fn the_numbers_never_repeat() {
    let mut log = EventLog::with_capacity(RETAINED);
    let mut seen = Vec::new();
    for _ in 0..(RETAINED + 20) {
        log.push(event);
        seen.push(log.last_seq());
    }
    let mut sorted = seen.clone();
    sorted.dedup();
    assert_eq!(sorted.len(), seen.len(), "a number repeated");
    assert!(seen.windows(2).all(|w| w[1] == w[0] + 1));
}

/// One change must give ONE line, and a record that did not change must give
/// none.
#[test]
fn each_change_gives_one_line_and_a_repeat_gives_none() {
    let mut state = one_job_state();

    state.publish_changes(1);
    assert_eq!(state.events.last_seq(), 1, "the admission must give a line");
    state.publish_changes(2);
    state.publish_changes(3);
    assert_eq!(state.events.last_seq(), 1, "a repeat must give no line");

    match &state.events.after(0)[0].1 {
        Event::Job {
            state,
            previous,
            change,
            ..
        } => {
            assert_eq!(*state, JobState::Queued);
            assert_eq!(
                *previous, None,
                "the first line of a job has no previous state"
            );
            assert_eq!(*change, Change::State);
        }
        other => panic!("expected a job event, got {other:?}"),
    }

    // The reason that a queued job waits is a change of its own.
    state.jobs[0].status.blocked_reason = Some("waits for memory".into());
    state.publish_changes(4);
    assert_eq!(state.events.last_seq(), 2);
    match &state.events.after(1)[0].1 {
        Event::Job { change, job, .. } => {
            assert_eq!(*change, Change::Reason);
            assert_eq!(job.blocked_reason.as_deref(), Some("waits for memory"));
        }
        other => panic!("expected a job event, got {other:?}"),
    }

    state.jobs[0].status.state = JobState::Running;
    state.publish_changes(5);
    assert_eq!(state.events.last_seq(), 3);
    match &state.events.after(2)[0].1 {
        Event::Job {
            state,
            previous,
            change,
            ..
        } => {
            assert_eq!(*state, JobState::Running);
            assert_eq!(*previous, Some(JobState::Queued));
            assert_eq!(*change, Change::State);
        }
        other => panic!("expected a job event, got {other:?}"),
    }

    // A job that `qex clean` deleted gives no line, and it leaves nothing
    // behind.
    state.jobs.remove(0);
    state.publish_changes(6);
    assert_eq!(state.events.last_seq(), 3, "a deleted record gives no line");
    assert!(state.events.reported.is_empty());
}

#[test]
fn a_copy_of_an_event_is_the_same_event() {
    let mut state = one_job_state();
    state.publish_changes(9);
    let (seq, first) = &state.events.after(0)[0];
    assert_eq!(*seq, 1);
    match first.copy() {
        Event::Job { seq, time, id, name, .. } => {
            assert_eq!((seq, time, id), (1, 9, 5));
            assert_eq!(name, "t");
        }
        other => panic!("expected a job event, got {other:?}"),
    }
}

#[test]
fn a_log_takes_the_size_that_the_user_wants() {
    assert_eq!(EventLog::new(None).capacity, RETAINED);
    assert_eq!(EventLog::new(Some(3)).capacity, 3);
    assert_eq!(EventLog::new(Some(0)).capacity, RETAINED);
}

fn gap(e: &Event) -> (Option<u64>, u64) {
    match e {
        Event::Gap { missed, next_seq, .. } => (*missed, *next_seq),
        other => panic!("expected a gap line, got {other:?}"),
    }
}

#[test]
fn a_stream_starts_where_the_reader_asks() {
    let mut log = EventLog::with_capacity(4);
    for _ in 0..10 {
        log.push(event);
    }
    // The log holds 7 to 10.
    let o = open_stream(&log, Cursor::Now, 1, "0.8.0", 7, 0);
    assert_eq!((o.lead.len(), o.next), (1, 11));
    match &o.lead[0] {
        Event::Stream { version, pid, first_seq, last_seq, .. } => {
            assert_eq!(version, "0.8.0");
            assert_eq!((*pid, *first_seq, *last_seq), (7, 7, 10));
        }
        other => panic!("expected the stream line, got {other:?}"),
    }

    let o = open_stream(&log, Cursor::Start, 1, "0.8.0", 7, 0);
    assert_eq!(o.next, 7);
    assert_eq!(gap(&o.lead[1]), (Some(6), 7));

    let o = open_stream(&log, Cursor::After(8), 1, "0.8.0", 7, 0);
    assert_eq!((o.lead.len(), o.next), (1, 9));

    let o = open_stream(&log, Cursor::After(2), 1, "0.8.0", 7, 0);
    assert_eq!(o.next, 7);
    assert_eq!(gap(&o.lead[1]), (Some(4), 7));

    // A number from a different coordinator. Nobody can count those events.
    let o = open_stream(&log, Cursor::After(500), 1, "0.8.0", 7, 99);
    assert_eq!(o.next, 7);
    assert_eq!(gap(&o.lead[1]), (None, 7));
    match &o.lead[1] {
        Event::Gap { reason, .. } => assert!(
            reason.contains("after 500") && reason.contains("started at 99"),
            "{reason}"
        ),
        other => panic!("expected a gap line, got {other:?}"),
    }
}

#[test]
fn a_slow_reader_learns_what_it_lost() {
    let mut log = EventLog::with_capacity(4);
    for _ in 0..10 {
        log.push(event);
    }
    let b = next_batch(&log, 3, 1, false);
    assert_eq!(gap(&b.gap.unwrap()), (Some(4), 7));
    assert_eq!(b.events.len(), 4);
    assert_eq!(b.next, 11);
    assert!(!b.stopping);

    let b = next_batch(&log, 11, 1, true);
    assert!(b.gap.is_none() && b.events.is_empty() && b.stopping);
    assert_eq!(b.next, 11);

    match bye(5) {
        Event::Bye { time, reason } => {
            assert_eq!(time, 5);
            assert!(reason.starts_with("the coordinator stops"));
        }
        other => panic!("expected the last line, got {other:?}"),
    }
}

#[test]
fn a_job_is_found_by_its_id() {
    let state = one_job_state();
    assert_eq!(find_job(&state.jobs, 5), Some(0));
    assert_eq!(find_job(&state.jobs, 6), None);
    assert!(holds_id(&vec![1, 2], 2));
    assert!(!holds_id(&vec![1, 2], 3));
}

#[test]
fn a_pause_costs_no_queue_time() {
    let mut state = one_job_state();
    state.jobs[0].status.submitted_at = 100;
    state.queue = vec![5];
    let changed = credit_paused_wait(&mut state, 150, 200);
    assert_eq!(changed, vec![5]);
    assert_eq!(state.jobs[0].status.queue_pause_secs, 50);

    // A job that came during the pause waits from its own submission.
    let mut state = one_job_state();
    state.jobs[0].status.submitted_at = 180;
    state.queue = vec![5];
    credit_paused_wait(&mut state, 150, 200);
    assert_eq!(state.jobs[0].status.queue_pause_secs, 20);
}

#[test]
fn the_end_of_a_pause_starts_the_idle_timer_again() {
    let mut state = one_job_state();
    state.queue = vec![5];
    let end = QueueEnd {
        since: 10,
        ended_at: 40,
    };
    assert_eq!(end_queue_pause(&mut state, end, 41), vec![5]);
    assert_eq!(state.idle_since, Some(41));
    assert_eq!(state.jobs[0].status.queue_pause_secs, 30);
}

#[test]
fn a_slow_reader_gets_or_counts_every_event() {
    let mut log = EventLog::with_capacity(4);
    let mut next = open_stream(&log, Cursor::Now, 1, "0.8.0", 7, 0).next;
    let mut got: Vec<u64> = Vec::new();
    let mut lost = 0;
    for burst in [3, 0, 9, 1, 4, 5] {
        for _ in 0..burst {
            log.push(event);
        }
        let b = next_batch(&log, next, 1, false);
        lost += b.gap.as_ref().map_or(0, |g| gap(g).0.unwrap());
        got.extend(b.events.iter().map(|(seq, _)| *seq));
        next = b.next;
    }
    assert_eq!(next, 23);
    assert_eq!(got.len() as u64 + lost, 22);
    assert_eq!(lost, 6);
    assert!(got.windows(2).all(|w| w[0] < w[1]));
}

#[test]
fn each_event_has_its_own_number() {
    for k in 1..=12u64 {
        let mut log = EventLog::with_capacity(5);
        for _ in 0..k {
            log.push(event);
        }
        assert_eq!(log.last_seq(), k);
        assert_eq!(log.dropped(), k - k.min(5));
        assert_eq!(log.first_seq(), log.dropped() + 1);
        let numbers: Vec<u64> = log.after(0).iter().map(|(seq, _)| *seq).collect();
        let want: Vec<u64> = (log.first_seq()..=log.last_seq()).collect();
        assert_eq!(numbers, want);
    }
}

/// Between two job lines the gap lines count exactly the numbers that miss.
#[test]
fn the_gap_lines_stand_where_the_events_miss() {
    let mut log = EventLog::with_capacity(4);
    let mut next = open_stream(&log, Cursor::Start, 1, "0.8.0", 7, 0).next;
    let mut last = 0;
    let mut missed = 0;
    for burst in [2, 9, 0, 7, 3, 20] {
        for _ in 0..burst {
            log.push(event);
        }
        let b = next_batch(&log, next, 1, false);
        if let Some(g) = &b.gap {
            missed += gap(g).0.unwrap();
        }
        for (seq, _) in &b.events {
            assert_eq!(missed, seq - last - 1);
            last = *seq;
            missed = 0;
        }
        next = b.next;
    }
    assert_eq!(last, 41);
}

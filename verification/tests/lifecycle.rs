use qex::deps::{hold_reason, Hold, Node};
use qex::events::EventLog;
use qex::job::{Ancestor, JobSpec, JobState, JobStatus};
use qex::lifecycle::{
    abort, abort_text, begin_abort, check_clean, clean, dep_nodes, in_scope, kill, may_kill, needs_kill, parse_signal,
    parse_signal_by, plan_abort, remove_record, signal_failed, signal_fault_by, starts_now,
    AbortScope, ErrorKind, Group, Refusal, Stop,
};
use qex::pause::{Paused, PauseRecord};
use qex::state::{HeldKey, Job, State};
use qex::system::{Errors, Signals};

fn job(id: u128, name: &str) -> Job {
    let spec = JobSpec {
        id,
        name: name.into(),
        command: vec!["true".into()],
        cwd: "/".into(),
        submitted_at: 0,
        cpu: 1,
        mem: 1 << 20,
        claim_source: "explicit".into(),
        group: None,
        group_name: None,
        needs: vec![],
        after: vec![],
        locks: vec![],
        dedupe_key: None,
        retries: 0,
        tags: vec![],
    };
    let status = JobStatus::new(&spec);
    Job {
        spec,
        status,
        supervisor_pid: None,
    }
}

fn state(jobs: Vec<Job>) -> State {
    let queue = jobs
        .iter()
        .filter(|j| j.status.state == JobState::Queued)
        .map(|j| j.status.id)
        .collect();
    State {
        jobs,
        queue,
        keys: Vec::new(),
        idle_since: None,
        started_at: 0,
        events: EventLog::new(None),
        paused: Paused::default(),
        stop: false,
    }
}

fn scope() -> AbortScope {
    AbortScope {
        cwd: None,
        submitter: None,
        tags: vec![],
    }
}

fn chain() -> Vec<Ancestor> {
    vec![
        Ancestor {
            pid: 50,
            ppid: 1,
            start: Some(7),
            name: "agent".into(),
            cwd: None,
            terminal: true,
        },
        Ancestor {
            pid: 1,
            ppid: 0,
            start: Some(0),
            name: "systemd".into(),
            cwd: None,
            terminal: false,
        },
    ]
}

fn text(id: u128) -> String {
    uuid::Uuid::from_u128(id).to_string()
}

#[test]
fn signal_names_parse_in_each_usual_form() {
    assert_eq!(parse_signal("TERM").unwrap(), libc::SIGTERM);
    assert_eq!(parse_signal("SIGTERM").unwrap(), libc::SIGTERM);
    assert_eq!(parse_signal("term").unwrap(), libc::SIGTERM);
    assert_eq!(parse_signal("KILL").unwrap(), libc::SIGKILL);
    assert_eq!(parse_signal("9").unwrap(), 9);
    assert_eq!(parse_signal("INT").unwrap(), libc::SIGINT);
}

#[test]
fn an_unknown_signal_gives_a_message_with_the_permitted_names() {
    let err = parse_signal("BANANA").unwrap_err();
    assert!(err.contains("TERM"), "the error must list the names: {err}");
    assert!(
        parse_signal("0").is_err(),
        "the signal 0 tests a process only"
    );
    assert!(parse_signal("99").is_err());
}

#[test]
fn the_other_signals_take_the_numbers_of_this_system() {
    assert_eq!(parse_signal("HUP").unwrap(), libc::SIGHUP);
    assert_eq!(parse_signal(" sigquit ").unwrap(), libc::SIGQUIT);
    assert_eq!(parse_signal("USR1").unwrap(), libc::SIGUSR1);
    assert_eq!(parse_signal("USR2").unwrap(), libc::SIGUSR2);
    assert_eq!(parse_signal("+15").unwrap(), 15);
    assert_eq!(parse_signal("SIG9").unwrap(), 9);
}

#[test]
fn the_text_of_a_wrong_signal_is_exact() {
    assert_eq!(
        parse_signal("-5").unwrap_err(),
        "the signal number -5 is not in the range 1 to 64"
    );
    assert_eq!(
        parse_signal("65").unwrap_err(),
        "the signal number 65 is not in the range 1 to 64"
    );
    assert_eq!(
        parse_signal("-+5").unwrap_err(),
        "unknown signal `-+5`. Use TERM, KILL, INT, HUP, QUIT, USR1, USR2, or a number."
    );
    assert_eq!(
        parse_signal("99999999999").unwrap_err(),
        "unknown signal `99999999999`. Use TERM, KILL, INT, HUP, QUIT, USR1, USR2, or a number."
    );
    let numbers = Signals {
        term: 1,
        kill: 2,
        interrupt: 3,
        hup: 4,
        quit: 5,
        usr1: 6,
        usr2: 7,
    };
    assert_eq!(parse_signal_by("usr2", &numbers), Ok(7));
}

#[test]
fn a_kill_names_the_process_or_says_why_not() {
    let mut running = job(3, "run");
    running.status.state = JobState::Running;
    running.status.pid = Some(42);
    running.status.pid_start_token = Some(9);
    let mut starting = job(4, "start");
    starting.status.state = JobState::Starting;
    let mut done = job(5, "done");
    done.status.state = JobState::Failed;
    let s = state(vec![job(2, "wait"), running, starting, done]);

    assert_eq!(
        kill(&s, 3).unwrap(),
        Group {
            pid: 42,
            start: Some(9)
        }
    );
    let refusal = |id: u128| kill(&s, id).unwrap_err();
    assert_eq!(refusal(1).kind, ErrorKind::NoSuchJob);
    assert_eq!(
        refusal(1).message,
        format!("there is no job with the id {}", text(1))
    );
    assert_eq!(refusal(2).kind, ErrorKind::WrongState);
    assert_eq!(
        refusal(2).message,
        format!(
            "the job {} waits in the queue. Use `qex cancel {}`.",
            text(2),
            text(2)
        )
    );
    assert_eq!(
        refusal(4).message,
        format!("the job {} starts now. Try the command again.", text(4))
    );
    assert_eq!(
        refusal(5).message,
        format!("the job {} stopped. Its state is `failed`.", text(5))
    );
    assert!(starts_now(&s, 4));
    assert!(!starts_now(&s, 3));
    assert!(!starts_now(&s, 9));
}

#[test]
fn a_signal_that_found_no_process_says_so() {
    let gone = signal_failed(7, Some(libc::ESRCH), "No such process");
    assert_eq!(gone.kind, ErrorKind::WrongState);
    assert_eq!(
        gone.message,
        format!(
            "the job {} has no process. It stopped in the moment before this command. Read \
             `qex status {}` for the result.",
            text(7),
            text(7)
        )
    );
    let other = signal_failed(7, Some(libc::EPERM), "not permitted");
    assert_eq!(other.kind, ErrorKind::Internal);
    assert_eq!(
        other.message,
        format!("qex could not signal the job {}: not permitted", text(7))
    );
    let codes = Errors {
        srch: 500,
        noent: 1,
        intr: 2,
        again: 3,
        inprogress: 4,
        connrefused: 5,
        notsock: 6,
    };
    assert_eq!(
        signal_fault_by(7, Some(500), "x", &codes).kind,
        ErrorKind::WrongState
    );
    assert_eq!(
        signal_fault_by(7, None, "x", &codes).kind,
        ErrorKind::Internal
    );
}

#[test]
fn a_kill_follows_the_grace_time_of_the_same_process_only() {
    assert!(needs_kill(libc::SIGTERM, 5));
    assert!(!needs_kill(libc::SIGTERM, 0));
    assert!(!needs_kill(libc::SIGKILL, 5));

    let mut running = job(3, "run");
    running.status.state = JobState::Running;
    running.status.pid = Some(42);
    let s = state(vec![running]);
    let group = Group {
        pid: 42,
        start: None,
    };
    assert!(may_kill(&s, 3, group, true, true));
    assert!(!may_kill(&s, 3, group, false, true));
    assert!(!may_kill(&s, 3, group, true, false));
    let other = Group {
        pid: 43,
        start: None,
    };
    assert!(!may_kill(&s, 3, other, true, true));
    assert!(!may_kill(&s, 4, group, true, true));
}

#[test]
fn a_record_that_a_job_needs_stays() {
    let mut a = job(1, "a");
    a.status.state = JobState::Completed;
    let mut b = job(2, "b");
    b.status.state = JobState::Failed;
    b.spec.needs = vec![1];
    let mut c = job(3, "c c");
    c.spec.after = vec![2];
    let mut s = state(vec![a, b, c]);
    // The chain goes through a job that stopped.
    let err = clean(&mut s, 1, 10).unwrap_err();
    assert_eq!(err.kind, ErrorKind::WrongState);
    assert_eq!(
        err.message,
        format!(
            "the job {} is needed by 00000000 (c_c). Wait for that job, or cancel it.",
            text(1)
        )
    );
    let err = clean(&mut s, 3, 10).unwrap_err();
    assert_eq!(
        err.message,
        format!(
            "the job {} is in the state `queued`. Stop it first with `qex kill {}`.",
            text(3),
            text(3)
        )
    );
    assert_eq!(clean(&mut s, 9, 10).unwrap_err().kind, ErrorKind::NoSuchJob);
    assert_eq!(s.jobs.len(), 3);
}

#[test]
fn a_stage_stays_while_its_pipeline_operates() {
    let mut a = job(1, "a");
    a.status.state = JobState::Completed;
    a.status.group = Some(77);
    let mut b = job(2, "b");
    b.status.group = Some(77);
    let mut c = job(3, "c");
    c.status.group = Some(77);
    let mut s = state(vec![a, b, c]);
    let err = clean(&mut s, 1, 10).unwrap_err();
    assert_eq!(
        err.message,
        format!(
            "the job {} belongs to a pipeline that has work left: 00000000 (b), 00000000 (c). \
             The record of a stage stays while the pipeline operates, so that a reader can see \
             the whole pipeline. Wait for those jobs, or cancel them.",
            text(1)
        )
    );
}

#[test]
fn a_removal_leaves_each_dependent_with_an_answer() {
    let mut a = job(1, "build it");
    a.status.state = JobState::Failed;
    let mut b = job(2, "b");
    b.status.state = JobState::Skipped;
    b.status.caused_by = Some(1);
    b.status.error = Some("Read `qex logs 1` for the cause".into());
    let mut c = job(3, "c");
    c.status.state = JobState::Skipped;
    c.status.caused_by = Some(2);
    let mut s = state(vec![a, b, c]);
    let removal = clean(&mut s, 1, 10).unwrap();
    assert_eq!(removal.status.id, 1);
    assert_eq!(removal.dependents.len(), 1);
    assert_eq!(removal.dependents[0].0, 2);
    let want = "the job `build_it` (failed) did not succeed, so this job did not run. Its \
                record is deleted, so there is no log to read.";
    assert_eq!(removal.dependents[0].1.error.as_deref(), Some(want));
    assert_eq!(s.jobs[0].status.error.as_deref(), Some(want));
    assert_eq!(s.jobs[0].status.caused_by, None);
    assert_eq!(s.jobs[1].status.caused_by, Some(2));
    assert!(remove_record(&mut s, 1).is_none());
}

#[test]
fn a_removal_takes_the_place_in_the_queue() {
    let mut s = state(vec![job(1, "a"), job(2, "b")]);
    assert_eq!(s.queue, vec![1, 2]);
    let removal = remove_record(&mut s, 1).unwrap();
    assert_eq!(removal.status.id, 1);
    assert_eq!(s.queue, vec![2]);
    assert_eq!(s.jobs.len(), 1);
}

#[test]
fn a_removal_frees_the_key_of_the_job() {
    let mut s = state(vec![job(1, "a"), job(2, "b")]);
    for (key, id) in [("train", 1), ("test", 2)] {
        s.keys.push(HeldKey {
            key: key.into(),
            id,
        });
    }
    remove_record(&mut s, 1).unwrap();
    let left: Vec<(&str, u128)> = s.keys.iter().map(|k| (k.key.as_str(), k.id)).collect();
    assert_eq!(left, vec![("test", 2)]);
}

#[test]
fn the_rules_of_the_records_are_read_in_order() {
    let node = |id: u128, terminal: bool, needs: Vec<u128>, group: Option<u128>| Node {
        id,
        group,
        terminal,
        needs,
        after: vec![],
    };
    let nodes = vec![
        node(1, true, vec![], Some(9)),
        node(2, false, vec![1], Some(9)),
        node(3, false, vec![], Some(9)),
    ];
    match hold_reason(&nodes, 1) {
        Some(Hold::Needed(h)) => assert_eq!(h, vec![2]),
        other => panic!("got {other:?}"),
    }
    match hold_reason(&nodes, 3) {
        Some(Hold::Pipeline(h)) => assert_eq!(h, vec![2, 3]),
        other => panic!("got {other:?}"),
    }
    assert!(hold_reason(&nodes, 7).is_none());
    // A circle of records ends too.
    let circle = vec![node(1, true, vec![2], None), node(2, false, vec![1], None)];
    match hold_reason(&circle, 1) {
        Some(Hold::Needed(h)) => assert_eq!(h, vec![2]),
        other => panic!("got {other:?}"),
    }
}

/// A record from an earlier start of the machine is outside the context,
/// whatever its chain says.
#[test]
fn a_record_from_an_earlier_start_of_the_machine_is_outside_the_context() {
    let mut this_start = job(1, "t");
    this_start.status.boot_id = Some("boot-now".into());
    this_start.status.submitter = chain();
    let mut earlier_start = job(2, "t");
    earlier_start.status.boot_id = Some("boot-before".into());
    earlier_start.status.submitter = chain();
    let mut s = state(vec![this_start, earlier_start]);

    let scope = AbortScope {
        cwd: Some("/".into()),
        submitter: Some(chain()),
        tags: vec![],
    };
    let plan = plan_abort(&mut s, &scope, 1, "boot-now", 100, |_| {}, |_| None);

    assert_eq!(plan.cancelled.len(), 1);
    assert_eq!(plan.cancelled[0].0, 1);
    assert_eq!(plan.outside, 1);
    assert_eq!(s.jobs[1].status.state, JobState::Queued);
    assert_eq!(s.queue, vec![2]);
}

#[test]
fn an_abort_reaches_each_job_of_its_scope() {
    let waits = job(1, "waits");
    let mut unwritten = job(2, "un written");
    unwritten.status.blocked_reason = Some("it waits".into());
    let mut runs = job(3, "runs");
    runs.status.state = JobState::Running;
    let mut done = job(4, "done");
    done.status.state = JobState::Completed;
    let mut s = state(vec![waits, unwritten, runs, done]);
    let plan = plan_abort(
        &mut s,
        &scope(),
        7,
        "boot",
        100,
        |p| assert_eq!(p.queue.len(), 1),
        |next| {
            assert_eq!(next.state, JobState::Cancelled);
            assert_eq!(next.finished_at, Some(100));
            assert_eq!(next.blocked_reason, None);
            if next.id == 2 {
                Some("the disk is full".into())
            } else {
                None
            }
        },
    );
    assert_eq!(plan.cancelled.len(), 1);
    assert_eq!(plan.cancelled[0].1.state, JobState::Cancelled);
    assert_eq!(plan.not_cancelled.len(), 1);
    assert_eq!(plan.not_cancelled[0].id, 2);
    assert_eq!(plan.not_cancelled[0].name, "un_written");
    assert_eq!(plan.not_cancelled[0].why, "the disk is full");
    assert_eq!(plan.running, vec![(3, "runs".to_string())]);
    assert_eq!(plan.outside, 0);
    // A job whose record could not be written stays queued in memory too.
    assert_eq!(s.jobs[1].status.state, JobState::Queued);
    assert_eq!(s.jobs[1].status.blocked_reason.as_deref(), Some("it waits"));
    assert_eq!(s.queue, vec![2]);
    assert_eq!(s.paused.queue.len(), 1);
    assert_eq!(s.paused.queue[0].reason.as_deref(), Some("qex abort"));
    assert_eq!(s.paused.queue[0].until, None);
    assert_eq!(s.paused.queue[0].by_pid, 7);
}

#[test]
fn an_abort_keeps_the_pause_of_a_person() {
    let mut s = state(vec![job(1, "a")]);
    s.paused
        .add_queue(PauseRecord::new(3, Some("lunch".into()), Some(900), 50));
    let plan = plan_abort(&mut s, &scope(), 7, "boot", 100, |_| {}, |_| None);
    assert_eq!(plan.cancelled.len(), 1);
    assert_eq!(s.paused.queue.len(), 1);
    assert_eq!(s.paused.queue[0].reason.as_deref(), Some("lunch"));
    assert_eq!(s.paused.queue[0].until, Some(900));
}

#[test]
fn every_part_of_a_scope_narrows_it() {
    let mut j = job(1, "a");
    j.status.cwd = "/work/".into();
    j.spec.tags = vec!["ci".into(), "ml".into()];
    assert!(in_scope(&j, &scope(), "b"));
    let dir = |d: &str| AbortScope {
        cwd: Some(d.into()),
        submitter: None,
        tags: vec![],
    };
    assert!(in_scope(&j, &dir("/work"), "b"));
    assert!(!in_scope(&j, &dir("/work/x"), "b"));
    let tags = |t: &[&str]| AbortScope {
        cwd: None,
        submitter: None,
        tags: t.iter().map(|s| s.to_string()).collect(),
    };
    assert!(in_scope(&j, &tags(&["x", "ml"]), "b"));
    assert!(!in_scope(&j, &tags(&["x"]), "b"));
    let caller = AbortScope {
        cwd: None,
        submitter: Some(chain()),
        tags: vec![],
    };
    assert!(!in_scope(&j, &caller, "b"), "a record with no start is outside");
}

/// An abort waits for the pid of a job that is between the queue and its first
/// process, and then signals it.
#[test]
fn an_abort_waits_for_the_pid_of_a_job_that_starts() {
    let mut starting = job(1, "t");
    starting.status.state = JobState::Starting;
    let mut s = state(vec![starting]);
    let plan = plan_abort(&mut s, &scope(), 1, "boot", 100, |_| {}, |_| None);
    let (mut answer, pending) = begin_abort(plan, false);
    let refused = |s: &State| {
        let starting = starts_now(s, 1);
        Stop {
            refused: kill(s, 1).err(),
            starting,
            late: false,
        }
    };
    let pending = abort(&mut answer, pending, |_| refused(&s));
    assert_eq!(pending, vec![(1, "t".to_string())]);
    assert_eq!(answer.signalled, Vec::<u128>::new());
    // The supervisor wrote the pid.
    s.jobs[0].status.state = JobState::Running;
    s.jobs[0].status.pid = Some(42);
    let pending = abort(&mut answer, pending, |_| refused(&s));
    assert!(pending.is_empty());
    assert_eq!(answer.signalled, vec![1]);
    assert!(answer.not_stopped.is_empty());
}

#[test]
fn an_abort_reports_a_job_that_it_could_not_stop() {
    let mut a = job(1, "a");
    a.status.state = JobState::Starting;
    let mut s = state(vec![a]);
    let plan = plan_abort(&mut s, &scope(), 1, "boot", 100, |_| {}, |_| None);
    let (mut answer, pending) = begin_abort(plan, false);
    let rest = abort(&mut answer, pending, |_| Stop {
        refused: Some(Refusal {
            kind: ErrorKind::WrongState,
            message: "no".into(),
        }),
        starting: true,
        late: true,
    });
    assert!(rest.is_empty());
    assert_eq!(answer.not_stopped.len(), 1);
    assert_eq!(answer.not_stopped[0].why, "no");
    assert_eq!(
        abort_text(&answer),
        "qex abort: 0 cancelled, 0 not cancelled, 0 signalled, 1 not stopped, 0 continue, 0 \
         outside the scope; the queue is paused"
    );
}

#[test]
fn an_abort_can_keep_the_jobs_that_operate() {
    let mut a = job(1, "a");
    a.status.state = JobState::Running;
    let mut s = state(vec![a, job(2, "b")]);
    let plan = plan_abort(&mut s, &scope(), 1, "boot", 100, |_| {}, |_| None);
    let (answer, pending) = begin_abort(plan, true);
    assert!(pending.is_empty());
    assert_eq!(answer.continues, vec![1]);
    assert_eq!(answer.cancelled, 1);
    assert_eq!(
        abort_text(&answer),
        "qex abort: 1 cancelled, 0 not cancelled, 0 signalled, 0 not stopped, 1 continue, 0 \
         outside the scope; the queue is paused"
    );
}

#[test]
fn the_test_before_a_deletion_changes_nothing() {
    let mut first = job(1, "first");
    first.status.state = JobState::Completed;
    let mut second = job(2, "second");
    second.spec.needs = vec![1];
    let jobs = vec![first, second];
    let nodes = dep_nodes(&jobs);
    assert_eq!(nodes[1].needs, vec![1]);
    assert!(nodes[0].terminal && !nodes[1].terminal);
    let refused = check_clean(&jobs, 1).unwrap_err();
    assert_eq!(refused.kind, ErrorKind::WrongState);
    assert!(refused.message.contains("is needed by 00000000 (second)"), "{}", refused.message);
    assert_eq!(check_clean(&jobs, 9).unwrap_err().kind, ErrorKind::NoSuchJob);
    assert!(check_clean(&jobs[..1].iter().map(|_| {
        let mut alone = job(1, "first");
        alone.status.state = JobState::Completed;
        alone
    }).collect(), 1).is_ok());
}

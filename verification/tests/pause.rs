use qex::job::Ancestor;
use qex::pause::{LockPause, OneOrMany, PauseRecord, Paused, QueueEnd, FAULT_ID};
use qex::pause_text::{
    ago, end_text, guarded_command, last_end, lock_lines, lock_matches, lock_reason, lock_same,
    queue_lines, queue_reason, request_head, request_line, resolve_lock_name, resume_command,
    shown_lock, shown_reason, standing_text, stands_elsewhere, view_json, Target,
};
use qex::pause_view::{
    for_an_earlier_cli, judge, program_of, relation, session_processes, still_exists,
    unknown_view, view, views, IssuerState, PauseView, Relation,
};

#[test]
fn a_safe_lock_word_finds_the_stored_name() {
    let known = ["deploy prod", "gpu0"];
    assert_eq!(
        resolve_lock_name("deploy_prod", &known).unwrap(),
        "deploy prod"
    );
    assert_eq!(
        resolve_lock_name("deploy prod", &known).unwrap(),
        "deploy prod"
    );
    assert_eq!(resolve_lock_name("new", &known).unwrap(), "new");
    let err = resolve_lock_name("a_b", &["a b", "a_b"]).unwrap_err();
    assert!(err.contains("2 locks"), "{err}");
    assert!(lock_same("lk\u{1b}[2J", "lk_2J"));
    assert!(!lock_same("gpu0", "gpu1"));
}

fn record() -> PauseRecord {
    PauseRecord {
        id: "7f3c9a1e".into(),
        paused_at: 1_000,
        by_pid: 42,
        reason: None,
        until: None,
        fault: false,
        issuer_chain: None,
        issuer_ns: None,
    }
}

fn process(pid: i32, ppid: i32, name: &str, terminal: bool) -> Ancestor {
    Ancestor {
        pid,
        ppid,
        start: Some(1000 + pid as u64),
        name: name.into(),
        cwd: None,
        terminal,
    }
}

/// The chain above a `qex` command of an agent in one pane of a
/// multiplexer, from the shell of the agent upward.
fn agent(shell: i32, agent: i32, pane: i32) -> Vec<Ancestor> {
    vec![
        process(shell, agent, "bash", false),
        process(agent, pane, "agent", true),
        process(pane, 6152, "bash", true),
        process(6152, 1, "tmux_server", false),
        process(1, 0, "systemd", false),
    ]
}

fn from(chain: Vec<Ancestor>) -> PauseRecord {
    PauseRecord {
        issuer_chain: Some(chain),
        ..record()
    }
}

fn record_of(v: &serde_json::Value) -> PauseRecord {
    PauseRecord {
        id: v["id"].as_str().unwrap_or("").into(),
        paused_at: v["paused_at"].as_u64().expect("each record has a time"),
        by_pid: v["by_pid"].as_i64().unwrap_or(0) as i32,
        reason: v["reason"].as_str().map(Into::into),
        until: v["until"].as_u64(),
        fault: v["fault"].as_bool().unwrap_or(false),
        issuer_chain: None,
        issuer_ns: None,
    }
}

fn records_of(v: &serde_json::Value) -> Vec<PauseRecord> {
    match v.as_array() {
        Some(list) => OneOrMany::Many(list.iter().map(record_of).collect()).list(),
        None if v.is_object() => OneOrMany::One(Box::new(record_of(v))).list(),
        None => Vec::new(),
    }
}

/// The set that a file with no chain of an issuer holds.
fn read(text: &str) -> Paused {
    let v: serde_json::Value = serde_json::from_str(text).expect("the file must parse");
    Paused {
        queue: records_of(&v["queue"]),
        queue_since: v["queue_since"].as_u64(),
        locks: v["locks"]
            .as_object()
            .into_iter()
            .flatten()
            .map(|(name, list)| LockPause {
                name: name.clone(),
                requests: records_of(list),
            })
            .collect(),
        id_not_in_the_file: false,
    }
}

/// Every process exists, or none does.
fn all(_: &Ancestor) -> bool {
    true
}
fn none(_: &Ancestor) -> bool {
    false
}

/// The four views that the four advice lines come from.
fn this_session() -> PauseView {
    view(
        &from(agent(100, 50, 40)),
        Some(&agent(101, 50, 40)),
        true,
        &all,
    )
}
fn another_session() -> PauseView {
    let other = vec![
        process(200, 60, "bash", false),
        process(60, 41, "agent", true),
        process(41, 7000, "zsh", true),
        process(7000, 1, "sshd", false),
    ];
    view(&from(agent(100, 50, 40)), Some(&other), true, &all)
}
fn gone_session() -> PauseView {
    view(
        &from(agent(100, 50, 40)),
        Some(&agent(201, 60, 41)),
        true,
        &none,
    )
}
fn unknown_session() -> PauseView {
    view(&record(), Some(&agent(101, 50, 40)), true, &all)
}

/// Two requests, in each order, with and without an end: no request
/// changes or removes the other one, and the queue is paused while one
/// stands.
///
/// # The fault that this test prevents
///
/// With ONE record for each queue, a second `qex pause queue` had to
/// change the first. Each rule for that change had a sequence in which
/// one session shortened or ended what a different session asked for.
#[test]
fn no_request_changes_or_removes_a_different_request() {
    for timed_first in [true, false] {
        let timed = PauseRecord {
            until: Some(2_800),
            reason: Some("recording a demo".into()),
            ..record()
        };
        let endless = PauseRecord {
            reason: Some("bulk abort".into()),
            ..record()
        };
        let (first, second) = if timed_first {
            (timed.clone(), endless.clone())
        } else {
            (endless.clone(), timed.clone())
        };

        let mut p = Paused::default();
        assert!(p.add_queue(first), "the first request pauses the queue");
        assert!(
            !p.add_queue(second),
            "the second request did not move the queue from running to paused"
        );
        assert_eq!(p.queue.len(), 2);
        assert_ne!(p.queue[0].id, p.queue[1].id, "each request has its own id");
        let id_of = |p: &Paused, timed: bool| {
            p.queue
                .iter()
                .find(|r| r.until.is_some() == timed)
                .map(|r| r.id.clone())
                .unwrap()
        };

        // A resume of the request with no end leaves the timed one as it
        // was, and the queue stays paused.
        let mut a = p.clone();
        let id = id_of(&a, false);
        let (removed, end) = a.remove_queue(|r| r.id == id, 1_500);
        assert_eq!(removed.len(), 1);
        assert_eq!(end, None, "one request stands, so the pause did not end");
        assert_eq!(a.queue.len(), 1);
        assert_eq!(a.queue[0].until, Some(2_800));
        assert_eq!(a.queue[0].reason.as_deref(), Some("recording a demo"));

        // A resume of the timed request leaves the request with no end.
        let mut b = p.clone();
        let id = id_of(&b, true);
        let (_, end) = b.remove_queue(|r| r.id == id, 1_500);
        assert_eq!(end, None);
        assert_eq!(b.queue[0].until, None, "no request got the end of another");
        assert_eq!(b.queue[0].reason.as_deref(), Some("bulk abort"));

        // The end of the timed request by itself does the same.
        let mut c = p.clone();
        let expired = c.expire(2_800);
        assert!(expired.changed);
        assert_eq!(expired.queue_end, None);
        assert!(c.queue_paused());

        // The resume of the last request ends the pause, and the pause
        // began at the FIRST request.
        let id = a.queue[0].id.clone();
        let (_, end) = a.remove_queue(|r| r.id == id, 1_700);
        assert_eq!(
            end,
            Some(QueueEnd {
                since: 1_000,
                ended_at: 1_700
            })
        );
        assert!(!a.queue_paused());
        assert!(a.is_empty());
    }
}

/// An id that stands no more, and an id that never existed, remove
/// nothing and end nothing.
#[test]
fn an_id_that_does_not_stand_removes_nothing() {
    let mut p = Paused::default();
    p.add_queue(record());
    let id = p.queue[0].id.clone();

    let (removed, end) = p.remove_queue(|r| r.id == "00000000", 1_100);
    assert!(removed.is_empty(), "an id that never existed");
    assert_eq!(end, None);
    assert!(p.queue_paused());

    let (removed, end) = p.remove_queue(|r| r.id == id, 1_100);
    assert_eq!(removed.len(), 1);
    assert!(end.is_some());

    let (removed, end) = p.remove_queue(|r| r.id == id, 1_200);
    assert!(removed.is_empty(), "an id that stands no more");
    assert_eq!(end, None, "a pause that ended must not end a second time");
}

/// `since` is the moment when the queue stopped running, and not the time
/// of the newest request or of the oldest request that still stands.
#[test]
fn the_pause_began_when_the_queue_stopped() {
    let mut p = Paused::default();
    p.add_queue(PauseRecord {
        until: Some(1_500),
        ..record()
    });
    p.add_queue(PauseRecord {
        paused_at: 1_200,
        ..record()
    });
    assert_eq!(p.since(), Some(1_000));

    // The first request ends. The queue did not run in between.
    assert!(p.expire(1_500).changed);
    assert_eq!(p.queue.len(), 1);
    assert_eq!(p.since(), Some(1_000), "the pause is unbroken");

    // After the queue ran, a new pause begins at its own first request.
    let id = p.queue[0].id.clone();
    p.remove_queue(|r| r.id == id, 1_600);
    assert_eq!(p.since(), None);
    p.add_queue(PauseRecord {
        paused_at: 1_700,
        ..record()
    });
    assert_eq!(p.since(), Some(1_700));
}

/// A pause with `--for` must end by itself. Without this test a queue that
/// a person paused for 30 minutes would stay paused for ever.
#[test]
fn a_pause_with_an_end_goes_away_by_itself() {
    let mut p = Paused::default();
    p.add_queue(PauseRecord {
        until: Some(1_100),
        ..record()
    });
    p.add_lock(
        "gpu0",
        PauseRecord {
            until: Some(2_000),
            ..record()
        },
    );

    assert!(
        !p.expire(1_099).changed,
        "the pause must stay before its end"
    );
    assert!(p.queue_paused());

    let expired = p.expire(9_000_000);
    assert!(expired.changed, "the pause must go away at its end");
    assert!(!p.queue_paused(), "the queue must operate again");
    assert_eq!(
        expired.queue_end,
        Some(QueueEnd {
            since: 1_000,
            ended_at: 1_100
        }),
        "the pause ended at ITS end, and not at the moment of the test"
    );
    assert!(p.is_empty(), "a lock whose last request ended is free");
}

/// A pause with no end never goes away by itself.
#[test]
fn a_pause_with_no_end_stays() {
    let mut p = Paused::default();
    p.add_queue(record());
    assert!(!p.expire(9_999_999).changed);
    assert!(p.queue_paused());
}

/// A lock is held for a person while at least one request for it stands.
#[test]
fn a_lock_is_held_while_one_request_stands() {
    let mut p = Paused::default();
    assert!(p.add_lock("gpu0", record()));
    assert!(!p.add_lock("gpu0", record()));
    let first = p.locks[0].requests[0].id.clone();
    assert_eq!(p.remove_lock("gpu0", |r| r.id == first).len(), 1);
    assert_eq!(p.locks[0].name, "gpu0", "one request stands");
    assert_eq!(p.remove_lock("gpu0", |_| true).len(), 1);
    assert!(p.locks.is_empty(), "no empty list stays");
    assert!(p.remove_lock("gpu0", |_| true).is_empty());
}

/// The reason of a queued job must not hold a number that changes.
///
/// The scheduler writes `status.json` with two `fsync` calls for every job
/// whose reason changed, and it tests the queue every 500ms. A reason with
/// an elapsed time would rewrite every record of the queue, twice a second,
/// for the whole length of the pause.
#[test]
fn the_reason_of_a_paused_job_does_not_change_with_time() {
    let mut p = Paused::default();
    p.add_queue(from(agent(100, 50, 40)));
    let reason = queue_reason(&p);
    assert_eq!(reason, queue_reason(&p));
    assert!(reason.contains("the queue is paused"));
    assert!(
        reason.contains("`qex pause`"),
        "the reason must give the command that shows each request: {reason}"
    );
    assert!(
        !reason.contains("qex resume"),
        "a resume with no id removes nothing, so the reason must not name it: {reason}"
    );
    assert!(
        !reason.contains("ago") && !reason.contains("running") && !reason.contains("gone"),
        "the reason must hold no elapsed time and no state of a session: {reason}"
    );
}

/// A pause with no end must say so wherever a person reads it.
#[test]
fn a_pause_with_no_end_says_so() {
    let lines = queue_lines(&[unknown_session()], Some(1_000), 1_360);
    assert_eq!(lines.len(), 2, "one summary line and one request line");
    assert!(
        lines[0].contains("until somebody resumes it"),
        "got: {}",
        lines[0]
    );
    assert!(
        lines[0].contains("6m"),
        "the line must give the length: {}",
        lines[0]
    );
    assert!(lines[0].contains("1 request stands"), "got: {}", lines[0]);

    let timed = PauseView {
        until: Some(2_000),
        ..unknown_session()
    };
    let lines = queue_lines(&[timed.clone(), unknown_session()], Some(1_000), 1_360);
    assert!(
        lines[0].contains("2 requests stand")
            && lines[0].contains("the last end is: until somebody resumes it"),
        "one request with no end gives the set no end: {}",
        lines[0]
    );
    assert_eq!(last_end(std::slice::from_ref(&timed)), Some(2_000));
    assert_eq!(last_end(&[timed, unknown_session()]), None);
}

/// NO LINE OF A PAUSE HOLDS A PROCESS ID.
///
/// # The fault that this test prevents
///
/// A `qex abort` that was the first process of a container reported its
/// own pid, which was 1. The line said "by pid 1", a reader ran `ps -p 1`
/// on the machine, found the first process alive, and believed for six
/// hours that the pauser still operated. A reader takes a pid in a line
/// for a pid of ITS machine, so the lines give the session and no number.
#[test]
fn no_line_of_a_pause_holds_a_process_id() {
    let mut p = Paused::default();
    p.add_queue(PauseRecord {
        by_pid: 31_337,
        ..from(agent(100, 50, 40))
    });
    let mut texts = vec![queue_reason(&p)];
    for v in [
        this_session(),
        another_session(),
        gone_session(),
        unknown_session(),
    ] {
        let v = PauseView {
            caller_reported_pid: Some(31_337),
            ..v
        };
        texts.extend(queue_lines(std::slice::from_ref(&v), Some(1_000), 1_360));
        texts.extend(lock_lines("gpu0", &[v], None, 1_360));
    }
    for text in texts {
        assert!(!text.contains("pid"), "a line names a pid: {text}");
        for number in ["31337", " 50", "(50", " 6152"] {
            assert!(!text.contains(number), "a line holds {number}: {text}");
        }
    }
}

/// The four advice lines, each against the rules.
#[test]
fn the_advice_obeys_its_rules() {
    let now = 1_240;
    let q = Target::Queue;
    let guarded = "qex resume queue --pause 7f3c9a1e";
    let exception = "unless you hold this id from your own `pause` answer or your user";

    // A request of this session: the guarded command, for the holder.
    let v = this_session();
    assert_eq!(v.issuer_session_state, IssuerState::Running);
    assert_eq!(v.issuer_is_this_session, Relation::Yes);
    assert_eq!(v.issuer_program.as_deref(), Some("agent"));
    let line = request_line(&v, q, now);
    assert!(
        line.contains("from THIS session (agent, still running)"),
        "{line}"
    );
    assert!(line.ends_with(guarded), "{line}");
    assert!(line.contains("not of a sibling agent"), "{line}");

    // A request of a different session that still runs: NO command.
    let v = another_session();
    assert_eq!(v.issuer_is_this_session, Relation::No);
    let line = request_line(&v, q, now);
    assert!(
        line.contains("from another session that is still running (agent)"),
        "{line}"
    );
    assert!(!line.contains("qex resume"), "{line}");
    assert!(line.contains(exception), "{line}");
    assert_eq!(resume_command(&v, q), None);

    // A request of a session that is gone: the guarded command.
    let v = gone_session();
    assert_eq!(v.issuer_session_state, IssuerState::Gone);
    assert_eq!(
        v.issuer_program.as_deref(),
        Some("agent"),
        "the name stays"
    );
    let line = request_line(&v, q, now);
    assert!(
        line.contains("from a session that is gone (agent)"),
        "{line}"
    );
    assert!(line.contains("expect nobody to resume it"), "{line}");
    assert!(line.ends_with(guarded), "{line}");
    let timed = PauseView {
        until: Some(4_000),
        ..v
    };
    let line = request_line(&timed, q, now);
    assert!(line.contains("It ends by itself at"), "{line}");
    assert!(line.contains("so waiting is the default"), "{line}");

    // Unknown: never more permissive than `running`, no command, and no
    // "this" or "another".
    let v = unknown_session();
    assert_eq!(v.issuer_session_state, IssuerState::Unknown);
    assert_eq!(v.issuer_is_this_session, Relation::Unknown);
    assert_eq!(v.issuer_program, None, "null exactly when unknown");
    let line = request_line(&v, q, now);
    assert!(line.contains("treat it as still there"), "{line}");
    assert!(!line.contains("qex resume"), "{line}");
    assert!(line.contains(exception), "{line}");
    assert!(
        !line.contains("THIS") && !line.contains("another"),
        "{line}"
    );

    // A session that runs, read by a command whose own chain is unknown:
    // no command, and no "this" or "another".
    let v = view(&from(agent(100, 50, 40)), None, true, &all);
    assert_eq!(v.issuer_is_this_session, Relation::Unknown);
    let line = request_line(&v, q, now);
    assert!(!line.contains("qex resume"), "{line}");
    assert!(
        !line.contains("THIS") && !line.contains("another"),
        "{line}"
    );
    assert!(line.contains(exception), "{line}");

    // No message names `--all`. Only the help does.
    for v in [
        this_session(),
        another_session(),
        gone_session(),
        unknown_session(),
    ] {
        assert!(!request_line(&v, q, now).contains("--all"));
    }
}

/// The text and the JSON agree on the command, and the default JSON holds
/// no field whose name holds `pid`.
#[test]
fn the_text_and_the_json_agree_and_the_json_holds_no_pid() {
    for v in [
        this_session(),
        another_session(),
        gone_session(),
        unknown_session(),
    ] {
        let v = PauseView {
            caller_reported_pid: Some(1),
            ..v
        };
        for target in [Target::Queue, Target::Lock("gpu0")] {
            let json = view_json(&v, target, false);
            let line = request_line(&v, target, 1_240);
            match json.resume_command.as_deref() {
                Some(command) => {
                    assert!(line.ends_with(command), "{line} / {command}");
                    assert!(command.contains("--pause 7f3c9a1e"), "{command}");
                }
                None => assert!(!line.contains("qex resume"), "{line}"),
            }
            assert_eq!(
                json.issuer_program.is_none(),
                json.issuer_session_state == "unknown",
                "the program is null exactly when the state is unknown"
            );
            let text = format!("{json:?}");
            assert!(
                !text.contains("pid"),
                "the default JSON names a pid: {text}"
            );
            assert!(!text.contains("holder"), "{text}");

            // The forensic form names each number for what it is, and has
            // no field that is called `pid`.
            let forensic = view_json(&v, target, true);
            let text = format!("{forensic:?}");
            assert!(!text.contains(" pid:"), "{text}");
            let forensic = forensic.forensic.expect("the forensic part");
            assert_eq!(forensic.caller_reported_pid, Some(1));
            if let Some(chain) = forensic.issuer_chain {
                assert!(chain.iter().all(|p| p.host_pid > 0));
            }
        }
    }
    assert_eq!(
        resume_command(&this_session(), Target::Lock("gpu0")).as_deref(),
        Some("qex resume lock gpu0 --pause 7f3c9a1e")
    );
}

/// A process of a session exists when its number AND its start time are those
/// of the record.
#[test]
fn a_process_exists_by_its_number_and_its_start_time() {
    let mut process = process(4_000, 1, "test", false);
    let token = process.start;
    assert!(still_exists(&process, token), "this process exists");

    // The machine gave the number to a later process.
    process.start = process.start.map(|s| s + 1);
    assert!(!still_exists(&process, token), "the start time differs");

    // A record with no start time proves nothing.
    process.start = None;
    assert!(!still_exists(&process, token));
    assert!(!still_exists(&process, None));
}

/// What counts as a process of a session.
#[test]
fn the_first_process_and_a_runtime_never_count() {
    // The multiplexer is the boundary, and it counts. The first process
    // of the machine is above it, and it never counts.
    let chain = agent(100, 50, 40);
    let names: Vec<&str> = session_processes(&chain)
        .iter()
        .map(|p| p.name.as_str())
        .collect();
    assert_eq!(names, ["bash", "agent", "bash", "tmux_server"]);

    // A container: the shim is the boundary, and it does not count. The
    // agent that is the first process INSIDE the container is an ordinary
    // process of the machine, and it counts.
    let container = vec![
        process(900, 800, "bash", false),
        process(800, 700, "agent", false),
        process(700, 1, "containerd-shim", false),
        process(1, 0, "systemd", false),
    ];
    let names: Vec<&str> = session_processes(&container)
        .iter()
        .map(|p| p.name.as_str())
        .collect();
    assert_eq!(names, ["bash", "agent"]);

    // Only the first process and a runtime: qex cannot say, and it never
    // says `running` for such a chain.
    let bare = vec![process(1, 0, "systemd", false)];
    assert!(session_processes(&bare).is_empty());
    let v = view(&from(bare), None, true, &all);
    assert_eq!(v.issuer_session_state, IssuerState::Unknown);

    // An agent that a service started is the boundary of its own chain
    // (its parent cannot be read). It counts, so its pause does not read
    // `gone` while the agent operates.
    let service = vec![
        process(100, 50, "bash", false),
        process(50, 40, "agent", false),
    ];
    let only_agent = |p: &Ancestor| p.pid == 50;
    let v = view(&from(service), None, true, &only_agent);
    assert_eq!(v.issuer_session_state, IssuerState::Running);
    assert_eq!(v.issuer_program.as_deref(), Some("agent"));
}

/// Two agents in two panes of one multiplexer share the multiplexer only.
/// qex must not say `this session`, which prints a command that ends the
/// request of the other agent, and it cannot say `another`.
#[test]
fn a_shared_boundary_is_not_a_shared_session() {
    let v = view(
        &from(agent(100, 50, 40)),
        Some(&agent(200, 60, 41)),
        true,
        &all,
    );
    assert_eq!(v.issuer_is_this_session, Relation::Unknown);
    assert_eq!(resume_command(&v, Target::Queue), None);
}

/// A record that was made in a different pid namespace holds numbers that
/// this process cannot test.
#[test]
fn a_record_of_a_different_pid_namespace_is_unknown() {
    let v = view(
        &from(agent(100, 50, 40)),
        Some(&agent(101, 50, 40)),
        false,
        &all,
    );
    assert_eq!(v.issuer_session_state, IssuerState::Unknown);
    assert_eq!(v.issuer_is_this_session, Relation::Unknown);
    assert_eq!(v.issuer_program, None);
}

/// A process with no start time can never be shown to exist, so qex must
/// not say that its session is gone.
#[test]
fn a_session_with_no_start_time_is_never_gone() {
    let mut chain = agent(100, 50, 40);
    for p in &mut chain {
        p.start = None;
    }
    let v = view(&from(chain), None, true, &none);
    assert_eq!(v.issuer_session_state, IssuerState::Unknown);
}

/// A file that qex cannot read must PAUSE the queue, and say why.
///
/// # The fault that this test prevents
///
/// A parse fault that gave "nothing is paused" would start the work while
/// the person believes that the machine is quiet, with no line in any log
/// and no word in any command. The two directions are not equal: a queue
/// that qex holds by mistake costs latency and one command corrects it,
/// and a queue that operates by mistake cannot be corrected after the
/// work started.
#[test]
fn a_record_that_qex_cannot_read_holds_the_queue() {
    let paused =
        Paused::held_by_fault("/x/paused.json", "expected value", 1_000);

    let record = paused.queue.first().expect("the queue must be paused");
    assert!(record.fault);
    assert_eq!(record.id, FAULT_ID, "the id is the same at each read");
    assert!(!record.expired(9_999_999), "such a pause has no end");

    // The words must say what happened, must not say that a person paused
    // the queue, and must give a remedy that WORKS: a resume with no id
    // removes nothing.
    let reason = queue_reason(&paused);
    assert!(reason.contains("could not read"), "got: {reason}");
    assert!(reason.contains("/x/paused.json"), "got: {reason}");
    assert!(
        reason.contains("qex resume queue --pause fault"),
        "got: {reason}"
    );

    let v = view(record, None, true, &all);
    let lines = queue_lines(&[v], paused.since(), record.paused_at);
    assert!(lines[1].contains("PAUSED BY A FAULT"), "got: {}", lines[1]);
    assert!(
        lines[1].ends_with("qex resume queue --pause fault"),
        "got: {}",
        lines[1]
    );

    // A real request replaces it: the file that this change writes is a
    // file that qex can read.
    //
    // The fault held the queue already, so the new request did not stop
    // it, and the queue stopped at the moment of the fault. A later
    // `since` would take the hours of the fault away from the time that
    // `--max-queue-time` gives back.
    let fault_at = record.paused_at;
    let mut paused = paused;
    let fault_since = paused.since();
    let mut later = PauseRecord::new(7, None, None, 1_000);
    later.paused_at = fault_at + 3600;
    assert!(
        !paused.add_queue(later),
        "the queue was held already, so this request did not stop it"
    );
    assert_eq!(paused.queue.len(), 1);
    assert!(!paused.queue[0].fault);
    assert_eq!(paused.since(), fault_since);
    let (_, end) = paused.remove_queue(|_| true, fault_at + 7200);
    assert_eq!(end.map(|e| e.since), fault_since);
}

/// An id is unique across the queue and all the locks, so qex can say
/// where a request stands. A resume that names the wrong target must get
/// that place and the command, and never "does not stand".
#[test]
fn qex_knows_the_target_that_an_id_stands_for() {
    let mut paused = Paused::default();
    paused.add_queue(PauseRecord::new(7, None, None, 1_000));
    paused.add_lock("gpu0", PauseRecord::new(7, None, None, 1_000));
    let queue_id = paused.queue[0].id.clone();
    let lock_id = paused.locks[0].requests[0].id.clone();

    assert_eq!(paused.home_of(&queue_id), Some(None));
    assert_eq!(paused.home_of(&lock_id), Some(Some("gpu0".to_string())));
    assert_eq!(paused.home_of("00000000"), None);

    let words = stands_elsewhere(&lock_id, Some("gpu0"));
    assert!(words.contains("stands for the lock `gpu0`"), "{words}");
    assert!(
        words.contains(&format!("`qex resume lock gpu0 --pause {lock_id}`")),
        "{words}"
    );
    assert!(!words.contains("does not stand"), "{words}");
    let words = stands_elsewhere(&queue_id, None);
    assert!(
        words.contains(&format!("`qex resume queue --pause {queue_id}`")),
        "{words}"
    );
}

/// An id that `read` gives to a record of the earlier shape must reach the
/// file. `expire` is the step that tells the coordinator to write, and the
/// number of requests does not change here, so the id itself must count.
#[test]
fn an_id_that_the_file_does_not_hold_is_a_change_to_write() {
    let text = r#"{"queue":{"paused_at":10,"by_pid":7,"reason":"a demo","until":null}}"#;
    let mut back = read(text);
    back.id_not_in_the_file = back.normalize();
    assert!(back.id_not_in_the_file, "the record had no id");
    let id = back.queue[0].id.clone();

    let first = back.expire(20);
    assert!(first.changed, "the caller must write the id that qex gave");
    assert_eq!(back.queue[0].id, id, "the id must not change again");

    let second = back.expire(30);
    assert!(!second.changed, "the file holds the id now");
}

#[test]
fn the_file_of_an_earlier_version_keeps_its_pause() {
    let text = r#"{"queue":{"paused_at":10,"by_pid":7,"reason":"a demo","until":null,
                   "paused_by_user":"someone"},
                   "locks":{"gpu0":{"paused_at":20,"by_pid":7}},"maintenance":true}"#;
    let mut back = read(text);
    back.normalize();
    assert_eq!(back.queue.len(), 1);
    let record = &back.queue[0];
    assert_eq!(record.paused_at, 10);
    assert_eq!(record.reason.as_deref(), Some("a demo"));
    assert!(!record.fault);
    assert_eq!(
        record.id.len(),
        8,
        "an old record gets an id: {}",
        record.id
    );
    assert_eq!(back.since(), Some(10));
    assert_eq!(back.locks[0].requests.len(), 1);
    assert_ne!(back.locks[0].requests[0].id, record.id);

    // Nobody read the issuer of such a record.
    let v = view(record, None, true, &all);
    assert_eq!(v.issuer_session_state, IssuerState::Unknown);

    let none = read(r#"{"queue":null,"locks":{}}"#);
    assert!(none.is_empty());
}

/// A CLI of an earlier version reads ONE record and prints its pid. The
/// record that the coordinator gives it holds no pid.
#[test]
fn the_record_for_an_earlier_cli_holds_no_pid() {
    let timed = PauseRecord {
        paused_at: 900,
        until: Some(2_000),
        ..from(agent(100, 50, 40))
    };
    let one = for_an_earlier_cli(&[record(), timed.clone()]).unwrap();
    assert_eq!(one.by_pid, 0);
    assert_eq!(one.issuer_chain, None);
    assert_eq!(one.paused_at, 900, "the oldest request");
    assert_eq!(one.until, None, "one request has no end");
    assert_eq!(for_an_earlier_cli(&[timed]).unwrap().until, Some(2_000));
    assert!(for_an_earlier_cli(&[]).is_none());
}

#[test]
fn the_words_of_a_request_have_one_form() {
    assert_eq!(ago(1_000, 1_360), "6m ago");
    assert_eq!(ago(2_000, 1_000), "0s ago");
    assert_eq!(end_text(None, 5), "until somebody resumes it");
    assert_eq!(end_text(Some(3_600), 3_540), "until 01:00 UTC (in 1m)");
    assert_eq!(
        guarded_command(Target::Lock("deploy prod"), "7f3c9a1e"),
        "qex resume lock deploy_prod --pause 7f3c9a1e"
    );
    assert_eq!(shown_reason("a\nb"), "a b");
    assert_eq!(shown_lock("a b"), "a_b");
    assert!(lock_matches("a b", "a_b") && lock_matches("a b", "a b"));
    assert!(!lock_matches("a_b", "a b"));
    assert_eq!(
        lock_reason("gpu 0"),
        "waits for the lock `gpu_0`, which a person holds"
    );
    assert!(request_head(&unknown_session(), 1_060).starts_with("pause 7f3c9a1e, made "));
    assert!(standing_text(&[unknown_session()], "it runs", 1_060)
        .starts_with("1 request stands; it runs when that request ends"));
}

#[test]
fn a_record_with_no_id_has_no_guarded_command() {
    let v = PauseView {
        pause_id: String::new(),
        ..gone_session()
    };
    assert_eq!(resume_command(&v, Target::Queue), None);
    assert!(request_head(&v, 1_060).starts_with("a pause with no id"));
}

#[test]
fn an_unknown_issuer_gives_no_permission() {
    let v = unknown_view(&from(agent(100, 50, 40)));
    assert_eq!(v.issuer_session_state, IssuerState::Unknown);
    assert_eq!(v.issuer_program, None);
    assert_eq!(resume_command(&v, Target::Queue), None);
    assert_eq!(relation(None, Some(&agent(1, 2, 3))), Relation::Unknown);
}

#[test]
fn a_session_is_named_after_its_program() {
    let chain = agent(100, 50, 40);
    assert_eq!(program_of(&session_processes(&chain)).as_deref(), Some("agent"));
    assert_eq!(program_of(&Vec::new()), None);
    let record = from(chain);
    // Only the process of the multiplexer lives.
    let (state, name) = judge(&record, true, &vec![false, false, false, true]);
    assert_eq!(state, IssuerState::Running);
    assert!(name.is_some());
    let (state, _) = judge(&record, true, &vec![false; 4]);
    assert_eq!(state, IssuerState::Gone);
    let (state, name) = judge(&record, false, &vec![false; 4]);
    assert_eq!((state, name), (IssuerState::Unknown, None));
}

#[test]
fn a_view_compares_the_namespace_of_its_record() {
    let here = Some("pid:[4026531836]".to_string());
    let mut one = from(agent(100, 50, 40));
    one.issuer_ns = here.clone();
    let mut other = from(agent(100, 50, 40));
    other.issuer_ns = Some("pid:[1]".into());
    let seen = views(&vec![one, other], Some(&agent(101, 50, 40)), &here, &all);
    assert_eq!(seen[0].issuer_session_state, IssuerState::Running);
    assert_eq!(seen[1].issuer_session_state, IssuerState::Unknown);
}

#[test]
fn the_ids_of_all_the_requests_are_different() {
    let mut p = Paused::default();
    for _ in 0..5 {
        p.add_queue(record());
        p.add_lock("b", record());
        p.add_lock("a", record());
    }
    let ids = p.ids();
    assert_eq!(ids.len(), 15);
    for (i, id) in ids.iter().enumerate() {
        assert!(!ids[..i].contains(id), "{id} repeated");
    }
    assert_eq!(p.locks[0].name, "a", "the locks are in the order of their names");
}

#[test]
fn a_request_for_one_lock_leaves_the_other_locks() {
    let mut p = Paused::default();
    assert!(p.add_lock("m", record()));
    assert!(p.add_lock("z", record()));
    let before: Vec<(String, Vec<PauseRecord>)> = p
        .locks
        .iter()
        .map(|l| (l.name.clone(), l.requests.clone()))
        .collect();

    assert!(p.add_lock("n", record()), "nobody held this lock");
    assert!(!p.add_lock("n", record()), "the lock is held already");
    let names: Vec<&str> = p.locks.iter().map(|l| l.name.as_str()).collect();
    assert_eq!(names, vec!["m", "n", "z"]);
    assert_eq!(p.locks[1].requests.len(), 2);
    assert_ne!(p.locks[1].requests[0].id, p.locks[1].requests[1].id);
    for (name, requests) in &before {
        let lock = p.locks.iter().find(|l| &l.name == name).unwrap();
        assert_eq!(&lock.requests, requests);
    }
}

#[test]
fn a_new_id_is_new_among_equal_ones() {
    let with_id = |id: &str| PauseRecord {
        id: id.into(),
        ..record()
    };
    let mut p = Paused::default();
    p.queue = vec![with_id("same"), with_id("same"), with_id("")];
    p.locks = vec![LockPause {
        name: "gpu0".into(),
        requests: vec![with_id(""), with_id("other")],
    }];
    assert!(p.normalize());
    let ids: Vec<&str> = p
        .queue
        .iter()
        .chain(p.locks[0].requests.iter())
        .map(|r| r.id.as_str())
        .collect();
    assert_eq!((ids[0], ids[1], ids[4]), ("same", "same", "other"));
    for new in [2, 3] {
        assert!(!ids[new].is_empty());
        assert_eq!(ids.iter().filter(|id| **id == ids[new]).count(), 1);
    }
    assert!(!p.normalize());
}

#[test]
fn a_second_look_at_the_same_moment_changes_nothing() {
    let mut p = Paused::default();
    p.add_queue(PauseRecord { until: Some(1_100), ..record() });
    p.add_queue(PauseRecord { until: Some(1_300), ..record() });
    p.add_lock("gpu0", PauseRecord { until: Some(1_100), ..record() });
    p.add_lock("gpu1", record());
    assert!(p.expire(1_200).changed);
    let queue = p.queue.clone();
    let second = p.expire(1_200);
    assert!(!second.changed);
    assert_eq!(second.queue_end, None);
    assert_eq!(p.queue, queue);
    assert_eq!(p.locks.len(), 1);
    assert_eq!(p.locks[0].name, "gpu1");
}

#[test]
fn a_line_with_no_command_holds_no_words_of_one() {
    let no_id = PauseView {
        pause_id: String::new(),
        ..gone_session()
    };
    let fault = PauseView {
        pause_id: String::new(),
        fault: true,
        ..unknown_session()
    };
    for v in [another_session(), unknown_session(), no_id, fault] {
        assert_eq!(resume_command(&v, Target::Queue), None);
        let line = request_line(&v, Target::Queue, 1_240);
        assert!(!line.contains("qex resume"), "{line}");
    }
}

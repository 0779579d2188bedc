use qex::enforce::{
    classify_oom, oom_evidence, oom_evidence_is_available, own_cgroup, read_oom_counts, was_oom_killed,
    was_user_killed, OomCounts, OomWatch,
};
use qex::history::{
    describe_missing, load, lookup, path, prune, record_removed, record_submit, record_submit_for, Entry,
    MAX_LINES,
};
use qex::hook::{
    claim, claim_line, cut_log, fire, note, run, start_dir, start_fault, variables, watch,
    ClaimFile, Ending, Exit, Hooks, Origin, Poll, Watch, OUTPUT_LIMIT,
};
use qex::job::{JobSpec, JobState, JobStatus};
use qex::paths::Places;
use qex::peers::{
    claims, describe, is_record_name, peer_dir, peer_file_name, read_peer, user_dir_name, user_of_dir, Claims,
    Meta, Peer, PeerDir, PeerFate, PeerFile, Reader,
};

// ---------------------------------------------------------------------------
// Kills for memory.
// ---------------------------------------------------------------------------

/// A rise in the count of kills says that the kernel stopped something.
#[test]
fn a_new_kill_names_a_kill_for_memory() {
    assert!(classify_oom(
        Some("low 0\nhigh 0\nmax 3\noom 1\noom_kill 1\n"),
        OomCounts::default()
    ));
}

#[test]
fn a_cgroup_with_no_kill_gives_no_answer() {
    assert!(!classify_oom(
        Some("low 0\nhigh 0\nmax 0\noom 0\noom_kill 0\n"),
        OomCounts::default()
    ));
}

#[test]
fn a_limit_that_stopped_no_process_gives_no_answer() {
    assert!(!classify_oom(
        Some("low 0\nhigh 0\nmax 5\noom 2\noom_kill 0\n"),
        OomCounts::default()
    ));
}

#[test]
fn a_cgroup_with_no_events_file_gives_no_answer() {
    assert!(!classify_oom(None, OomCounts::default()));
    assert_eq!(read_oom_counts(None), None);
}

#[test]
fn a_count_that_qex_cannot_read_is_zero() {
    let events = Some("oom what\noom_kill later\n");
    assert_eq!(
        read_oom_counts(events),
        Some(OomCounts {
            oom: 0,
            oom_kill: 0
        }),
        "a count that qex cannot read must not become evidence"
    );
    assert!(!classify_oom(events, OomCounts::default()));
}

#[test]
fn a_count_from_before_the_attempt_gives_no_answer() {
    let events = Some("low 0\nhigh 0\nmax 0\noom 0\noom_kill 4\n");
    assert!(
        !classify_oom(
            events,
            OomCounts {
                oom: 0,
                oom_kill: 4
            }
        ),
        "a count that this attempt did not raise says nothing about it"
    );
    assert!(classify_oom(
        events,
        OomCounts {
            oom: 0,
            oom_kill: 3
        }
    ));
}

#[test]
fn the_answer_of_an_attempt_reaches_the_record() {
    let watch = OomWatch::start(Some("/sys/fs/cgroup/x".into()), Some("oom 0\noom_kill 0\n"));
    assert!(!watch.record(Some("oom 0\noom_kill 0\n")));
    assert!(watch.record(Some("oom 0\noom_kill 1\n")));
    let none = OomWatch::start(None, Some("oom_kill 0\n"));
    assert!(!none.record(Some("oom_kill 9\n")));
}

#[test]
fn the_out_of_memory_record_is_read_back_whatever_an_earlier_qex_wrote() {
    let names = |list: &[&str]| -> Vec<String> { list.iter().map(|s| s.to_string()).collect() };
    assert!(!was_oom_killed(&names(&["status.json"])));
    assert!(was_oom_killed(&names(&["status.json", "oom"])));
    assert!(!was_user_killed(&names(&["oom"])));
    assert!(was_user_killed(&names(&["killed-by-user"])));
}

#[test]
fn the_cgroup_of_this_process_stands_in_its_line() {
    assert_eq!(
        own_cgroup("12:cpu:/a\n0::/user.slice/x\n").as_deref(),
        Some("/sys/fs/cgroup/user.slice/x")
    );
    assert_eq!(own_cgroup("0::/\n").as_deref(), Some("/sys/fs/cgroup/"));
    assert_eq!(own_cgroup("1:cpu:/a\n"), None);
    assert!(oom_evidence_is_available(&Some("x".into())));
    assert!(!oom_evidence_is_available(&None));
}

// ---------------------------------------------------------------------------
// The history.
// ---------------------------------------------------------------------------

fn spec(id: u128, name: &str) -> JobSpec {
    JobSpec {
        id,
        name: name.into(),
        command: vec!["secret".into()],
        cwd: "/".into(),
        submitted_at: 50,
        cpu: 1,
        mem: 1 << 30,
        claim_source: "explicit".into(),
        group: None,
        group_name: None,
        needs: vec![],
        after: vec![],
        locks: vec![],
        dedupe_key: None,
        retries: 0,
        tags: vec!["ci".into()],
    }
}

fn status(state: JobState) -> JobStatus {
    let mut s = JobStatus::new(&spec(7, "build"));
    s.state = state;
    s.exit_code = Some(3);
    s.started_at = Some(100);
    s.finished_at = Some(112);
    s
}

fn id_text(id: u128) -> String {
    uuid::Uuid::from_u128(id).to_string()
}

#[test]
fn an_unknown_id_says_that_qex_never_saw_it() {
    let entries: Vec<Entry> = vec![record_submit(&spec(1, "a"))];
    assert_eq!(
        describe_missing(&entries, 2, 100),
        format!(
            "there is no job with the id {}, and qex has no record of one. Test the id, or \
             submit the job.",
            id_text(2)
        )
    );
}

#[test]
fn a_deleted_record_says_that_the_work_happened() {
    let entries = vec![
        record_submit_for(7, "build", 50),
        record_submit_for(8, "other", 60),
        record_removed(&status(JobState::Completed), 100),
    ];
    let found = lookup(&entries, 7).unwrap();
    assert_eq!(found.submitted_at, 50);
    assert_eq!(found.removed_at, Some(100));
    assert_eq!(found.final_state.as_deref(), Some("completed"));
    assert_eq!(
        describe_missing(&entries, 7, 190),
        format!(
            "the job {} (build) existed and its state was `completed`. Something deleted its \
             record 1m30s ago, with `qex clean` or by a deletion of the state directory. The \
             work of that job HAPPENED. Do not submit it again unless you want to repeat the \
             work.",
            id_text(7)
        )
    );
}

#[test]
fn a_record_that_vanished_is_different_from_one_that_qex_deleted() {
    let entries = vec![record_submit_for(7, "build", 50)];
    assert_eq!(
        describe_missing(&entries, 7, 60),
        format!(
            "the job {} (build) existed, and qex accepted it 10s ago, but its record is gone and \
             qex did not delete it. Something removed the state directory. The job may have run.",
            id_text(7)
        )
    );
    let entries = vec![Entry {
        id: 7,
        name: "build".into(),
        submitted_at: 50,
        removed_at: Some(70),
        final_state: None,
    }];
    assert_eq!(
        describe_missing(&entries, 7, 60),
        format!(
            "the job {} (build) existed. Something deleted its record 0s ago. qex does not know \
             how that job ended.",
            id_text(7)
        )
    );
}

#[test]
fn an_old_line_goes_away() {
    let entries = vec![
        record_submit_for(1, "old", 10),
        record_submit_for(2, "young", 500),
        record_removed(&status(JobState::Failed), 600),
    ];
    let kept = prune(&entries, 100, 600).unwrap();
    assert_eq!(kept.iter().map(|e| e.id).collect::<Vec<_>>(), vec![2, 7]);
    assert!(prune(&entries, 1000, 600).is_none());
    let many: Vec<Entry> = (0..MAX_LINES as u128 + 2)
        .map(|i| record_submit_for(i, "x", 600))
        .collect();
    let kept = prune(&many, 1, 600).unwrap();
    assert_eq!(kept.len(), MAX_LINES);
    assert_eq!(kept[0].id, 2);
}

#[test]
fn the_file_never_holds_the_command() {
    let entry = record_submit(&spec(1, "a"));
    assert!(!format!("{entry:?}").contains("secret"));
    let p = Places {
        home: Some("/h".into()),
        config_home: None,
        state_home: None,
        temp: "/tmp".into(),
    };
    assert_eq!(path(&p).unwrap(), "/h/.local/state/qex/history.jsonl");
}

// ---------------------------------------------------------------------------
// The hook.
// ---------------------------------------------------------------------------

fn hooks(states: &[&str]) -> Hooks {
    Hooks {
        on_stop: vec!["notify".into()],
        on_stop_states: states.iter().map(|s| s.to_string()).collect(),
    }
}

#[test]
fn the_hook_of_one_job_runs_one_time_only() {
    assert_eq!(claim(&ClaimFile::Made, 7, "/j"), (true, None));
    assert_eq!(claim(&ClaimFile::Taken, 7, "/j"), (false, None));
    assert_eq!(
        claim(&ClaimFile::Fault("gone".into()), 7, "/j"),
        (
            false,
            Some(format!(
                "qex did not run the stop hook of the job {}: it could not write /j/hook.ran \
                 (gone)",
                id_text(7)
            ))
        )
    );
}

#[test]
fn the_claim_file_names_the_process_that_ran_the_hook() {
    let s = status(JobState::Completed);
    assert_eq!(
        claim_line(&s, 1786171234, Origin::Supervisor),
        format!("completed {} 1786171234 supervisor\n", id_text(7))
    );
    assert!(claim_line(&s, 1, Origin::Coordinator).ends_with(" coordinator\n"));
    assert_eq!(Origin::Coordinator.as_str(), "coordinator");
}

#[test]
fn the_hook_receives_the_id_the_state_and_the_exit_code() {
    let set = variables("/jobs/7", &status(JobState::Failed), 999);
    let value = |name: &str| {
        set.iter()
            .find(|(k, _)| k == name)
            .map(|(_, v)| v.clone())
            .unwrap()
    };
    assert_eq!(value("QEX_JOB_ID"), id_text(7));
    assert_eq!(value("QEX_JOB_NAME"), "build");
    assert_eq!(value("QEX_STATE"), "failed");
    assert_eq!(value("QEX_EXIT_CODE"), "3");
    assert_eq!(value("QEX_ELAPSED_SECS"), "12");
    assert_eq!(value("QEX_JOB_DIR"), "/jobs/7");
    assert_eq!(value("QEX_TAGS"), "ci");
    // A value that the job has not got is an empty text.
    assert_eq!(value("QEX_SIGNAL"), "");
    assert_eq!(set.len(), 11);
}

#[test]
fn a_control_byte_in_the_data_of_a_job_still_runs_the_hook() {
    let mut s = status(JobState::Failed);
    s.tags = vec!["a\u{0}b".into(), "c\u{1b}d".into()];
    s.cwd = "/x\ny".into();
    s.name = "n; rm -rf ~".into();
    for (name, value) in variables("/j", &s, 0) {
        assert!(!value.chars().any(|c| c.is_control()), "{name}: {value:?}");
    }
    assert!(variables("/j", &s, 0)
        .iter()
        .any(|(k, v)| k == "QEX_TAGS" && v == "a b c d"));
}

#[test]
fn the_filter_selects_the_states_that_notify() {
    let h = hooks(&["failed", "oom"]);
    assert!(fire(&h, JobState::Failed));
    assert!(fire(&h, JobState::Oom));
    assert!(!fire(&h, JobState::Completed));
    let none = Hooks {
        on_stop: vec![],
        on_stop_states: vec!["failed".into()],
    };
    assert!(!fire(&none, JobState::Failed));
}

#[test]
fn a_job_that_did_not_stop_does_not_run_the_hook() {
    assert!(!fire(&hooks(&["running", "queued"]), JobState::Running));
    assert!(!fire(&hooks(&["running", "queued"]), JobState::Queued));
}

#[test]
fn the_hook_starts_in_the_directory_of_the_job_or_in_the_root() {
    assert_eq!(start_dir("/work", true), "/work");
    assert_eq!(start_dir("/work", false), "/");
    assert_eq!(start_dir("", true), "/");
}

fn ending(watch: Watch) -> Ending {
    Ending {
        watch,
        fault: "no child".into(),
        cut: false,
        log: "/j/hook.log".into(),
        limit: 30,
        used: 2,
        exit: Some(Exit {
            success: true,
            words: "exit status: 0".into(),
        }),
    }
}

#[test]
fn each_end_of_a_hook_has_its_verdict() {
    assert_eq!(run(&ending(Watch::Ended), 7), "ran in 2s");
    let mut e = ending(Watch::Ended);
    e.exit = Some(Exit {
        success: false,
        words: "exit status: 3".into(),
    });
    assert_eq!(
        run(&e, 7),
        format!(
            "stopped with exit status: 3. Read `qex logs {} --hook` for its output.",
            id_text(7)
        )
    );
    e.exit = None;
    assert_eq!(run(&e, 7), "stopped, and qex could not read its result");
    e.cut = true;
    assert_eq!(
        run(&e, 7),
        "wrote more than 1MB before it stopped. qex cut /j/hook.log. Write less in the hook."
    );
    assert_eq!(
        run(&ending(Watch::TooLarge), 7),
        "wrote more than 1MB and qex stopped it. qex cut /j/hook.log. Write less in the hook."
    );
    assert_eq!(
        run(&ending(Watch::TooSlow), 7),
        "used more than its time limit of 30s and qex stopped it. Make the hook faster, or \
         increase `[hooks] timeout`."
    );
    let mut e = ending(Watch::TooSlow);
    e.cut = true;
    assert!(run(&e, 7).ends_with(" It also wrote more than 1MB, so qex cut its log."));
    assert_eq!(
        run(&ending(Watch::Lost), 7),
        "gave an error at a test of its state: no child"
    );
    assert_eq!(note("ran in 2s"), "\nqex: the stop hook ran in 2s\n");
    assert_eq!(
        start_fault("not found", "notify"),
        "did not start: not found. Test the program `notify` in `[hooks] on_stop` of the config \
         file. The job keeps its result."
    );
}

#[test]
fn a_hook_is_stopped_at_its_limits() {
    assert_eq!(watch(&Poll::Operates, false, OUTPUT_LIMIT), Watch::Wait);
    assert_eq!(
        watch(&Poll::Operates, false, OUTPUT_LIMIT + 1),
        Watch::TooLarge
    );
    assert_eq!(
        watch(&Poll::Operates, true, OUTPUT_LIMIT + 1),
        Watch::TooSlow
    );
    assert_eq!(watch(&Poll::Stopped, true, 0), Watch::Ended);
    assert_eq!(watch(&Poll::Fault("x".into()), false, 0), Watch::Lost);
    assert_eq!(cut_log(OUTPUT_LIMIT), None);
    assert_eq!(cut_log(OUTPUT_LIMIT + 1), Some(OUTPUT_LIMIT));
}

// ---------------------------------------------------------------------------
// The peers.
// ---------------------------------------------------------------------------

fn me() -> Reader {
    Reader {
        uid: 1000,
        pid: 5,
        boot_id: "boot".into(),
        now: 100,
        stale: 30,
    }
}

fn record(uid: u32, pid: i32) -> PeerFile {
    PeerFile {
        dir: user_dir_name(uid),
        name: peer_file_name(pid),
        is_file: true,
        owner: uid,
        len: 200,
        peer: Some(Peer {
            uid,
            pid,
            boot_id: "boot".into(),
            cpu: 4,
            mem: 8 << 30,
            updated_at: 90,
        }),
        alive: true,
    }
}

#[test]
fn a_record_of_this_user_does_not_count() {
    let (total, old) = claims(&vec![record(1000, 5)], &me());
    assert_eq!(total, Claims::default());
    assert!(old.is_empty());
    // A second coordinator of this user counts.
    let (total, _) = claims(&vec![record(1000, 6), record(1000, 5)], &me());
    assert_eq!(
        total,
        Claims {
            cpu: 4,
            mem: 8 << 30,
            count: 1
        }
    );
}

#[test]
fn a_directory_without_the_sticky_bit_is_refused() {
    let meta = |mode: u32, owner: u32| {
        Some(Meta {
            is_dir: true,
            mode,
            owner,
        })
    };
    assert_eq!(peer_dir(meta(0o777, 1000), 1000), PeerDir::Refuse);
    assert_eq!(peer_dir(meta(0o1777, 2), 1000), PeerDir::Use);
    assert_eq!(peer_dir(meta(0o1755, 2), 1000), PeerDir::Refuse);
    assert_eq!(peer_dir(meta(0o1755, 0), 1000), PeerDir::Use);
    assert_eq!(peer_dir(meta(0o1755, 1000), 1000), PeerDir::Use);
    assert_eq!(peer_dir(None, 1000), PeerDir::Make);
}

#[test]
fn a_file_in_place_of_the_directory_is_refused() {
    let meta = Meta {
        is_dir: false,
        mode: 0o1777,
        owner: 0,
    };
    assert_eq!(peer_dir(Some(meta), 1000), PeerDir::Refuse);
}

#[test]
fn a_record_with_the_wrong_owner_is_refused() {
    let mut file = record(99999, 6);
    file.owner = 1000;
    assert_eq!(read_peer(&file, &me()), PeerFate::Skip);
    let mut file = record(99999, 6);
    file.peer.as_mut().unwrap().uid = 1;
    assert_eq!(read_peer(&file, &me()), PeerFate::Skip);
}

#[test]
fn an_old_record_and_a_dead_process_do_not_count() {
    let mut old = record(1001, 6);
    old.peer.as_mut().unwrap().updated_at = 69;
    let mut dead = record(1001, 7);
    dead.alive = false;
    let mut boot = record(1001, 8);
    boot.peer.as_mut().unwrap().boot_id = "before".into();
    let mut ahead = record(1001, 9);
    ahead.peer.as_mut().unwrap().updated_at = 500;
    let (total, gone) = claims(&vec![old, dead, boot, ahead], &me());
    assert_eq!(total.count, 1);
    assert_eq!(gone, vec![0, 1, 2]);
}

#[test]
fn a_damaged_file_does_not_stop_the_reader() {
    let mut file = record(1001, 6);
    file.peer = None;
    let (total, gone) = claims(&vec![file, record(1002, 6)], &me());
    assert_eq!(total.count, 1);
    assert!(gone.is_empty());
    let mut large = record(1001, 6);
    large.len = 65537;
    assert_eq!(read_peer(&large, &me()), PeerFate::Skip);
    let mut name = record(1001, 6);
    name.name = "peer.json".into();
    assert_eq!(read_peer(&name, &me()), PeerFate::Skip);
}

#[test]
fn the_names_of_the_peer_files_are_exact() {
    assert_eq!(user_dir_name(1000), "u1000");
    assert_eq!(peer_file_name(5), "peer-5.json");
    assert_eq!(peer_file_name(-5), "peer--5.json");
    assert_eq!(user_of_dir("u1000"), Some(1000));
    assert_eq!(user_of_dir("u4294967296"), None);
    assert_eq!(user_of_dir("x1"), None);
}

#[test]
fn the_state_of_the_peers_is_the_true_one() {
    let c = Claims {
        cpu: 4,
        mem: 8 << 30,
        count: 1,
    };
    assert_eq!(
        describe(true, "/var/qex", true, &c),
        "on, in /var/qex (1 other coordinator(s), 4 cores and 8GB claimed)"
    );
    assert_eq!(
        describe(false, "/var/qex", true, &c),
        "off; the config file sets [peers] enabled = false"
    );
    assert_eq!(
        describe(true, "/var/qex", false, &c),
        "NOT ACTIVE; qex cannot use the directory /var/qex. It must be a directory with the \
         sticky bit. qex uses the budget of this user only."
    );
}

#[test]
fn only_the_name_of_a_record_is_read() {
    assert!(is_record_name("peer-12.json"));
    for name in ["peer-12.tmp", "peer.json", "x-peer-1.json", ".peer-1.json.tmp.2.3"] {
        assert!(!is_record_name(name), "{name}");
    }
    assert!(oom_evidence(&vec!["oom".to_string()]));
    assert!(!oom_evidence(&vec!["oom.txt".to_string()]));
}

#[test]
fn the_history_gives_the_newest_line_of_each_job() {
    assert!(load(&vec![]).is_empty());
    let lines = vec![
        record_submit_for(7, "build", 50),
        record_submit_for(8, "test", 60),
        record_removed(&status(JobState::Failed), 90),
        record_submit_for(9, "deploy", 95),
    ];
    let newest = load(&lines);
    let ids: Vec<(u128, Option<u64>)> = newest.iter().map(|e| (e.id, e.removed_at)).collect();
    assert_eq!(ids, vec![(8, None), (7, Some(90)), (9, None)]);
    // What the newest lines say is what all the lines say.
    for id in [7, 8, 9, 10] {
        assert_eq!(
            describe_missing(&newest, id, 100),
            describe_missing(&lines, id, 100)
        );
    }
}

use qex::context::{boundary_index, is_same_process, shared};
use qex::ids::new_id;
use qex::job::{
    hexadecimal, in_order, printable, safe_name, tmp_name, visible, Ancestor, JobSpec, JobState,
    JobStatus, LogsDropped,
};
use std::str::FromStr;

fn status(id: u128, sequence: u64) -> JobStatus {
    let spec = JobSpec {
        id,
        name: "build".into(),
        command: vec!["cargo".into(), "build".into()],
        cwd: "/work".into(),
        submitted_at: 100,
        cpu: 2,
        mem: 1 << 20,
        claim_source: "explicit".into(),
        group: None,
        group_name: None,
        needs: vec![3],
        after: vec![4],
        locks: vec!["db".into()],
        dedupe_key: Some("k".into()),
        retries: 2,
        tags: vec!["ci".into()],
    };
    let mut s = JobStatus::new(&spec);
    s.sequence = sequence;
    s
}

fn process(pid: i32, start: Option<u64>, name: &str, cwd: &str) -> Ancestor {
    Ancestor {
        pid,
        ppid: pid - 1,
        start,
        name: name.into(),
        cwd: Some(cwd.into()),
        terminal: true,
    }
}

#[test]
fn terminal_states_are_classified_correctly() {
    for s in [
        JobState::Completed,
        JobState::Failed,
        JobState::Killed,
        JobState::Timeout,
        JobState::Oom,
        JobState::Cancelled,
    ] {
        assert!(s.is_terminal(), "{s:?} should be terminal");
        assert!(!s.is_active(), "{s:?} should not be active");
    }
    for s in [JobState::Queued, JobState::Starting, JobState::Running] {
        assert!(!s.is_terminal(), "{s:?} should not be terminal");
    }
    assert!(JobState::Running.is_active());
    assert!(!JobState::Queued.is_active());
}

#[test]
fn states_round_trip_through_strings() {
    for s in [
        JobState::Queued,
        JobState::Running,
        JobState::Completed,
        JobState::Oom,
        JobState::Cancelled,
    ] {
        assert_eq!(JobState::from_str(s.as_str()).unwrap(), s);
    }
    assert_eq!(JobState::from_str("canceled").unwrap(), JobState::Cancelled);
    assert!(JobState::from_str("wat").is_err());
}

#[test]
fn each_state_is_terminal_or_active_or_in_the_queue() {
    for s in [
        JobState::Queued,
        JobState::Starting,
        JobState::Running,
        JobState::Completed,
        JobState::Failed,
        JobState::Killed,
        JobState::Timeout,
        JobState::Oom,
        JobState::Cancelled,
        JobState::Skipped,
        JobState::Expired,
    ] {
        assert_eq!(JobState::parse(s.as_str()), Ok(s));
        let ways =
            s.is_terminal() as u32 + s.is_active() as u32 + (s == JobState::Queued) as u32;
        assert_eq!(ways, 1, "{s:?}");
    }
    assert_eq!(JobState::parse("RUNNING"), JobState::from_str("RUNNING"));
}

#[test]
fn a_new_record_holds_what_the_user_asked_for() {
    let s = status(7, 0);
    assert_eq!(s.state, JobState::Queued);
    assert_eq!(s.retries_left, 2);
    assert_eq!(s.attempts, 0);
    assert_eq!(s.needs, vec![3]);
    assert_eq!(s.after, vec![4]);
    assert_eq!(s.locks, vec!["db".to_string()]);
    assert_eq!(s.dedupe_key.as_deref(), Some("k"));
    assert_eq!(s.tags, vec!["ci".to_string()]);
    assert_eq!(s.started_at, None);
    assert_eq!(s.logs_dropped, None);
    assert_eq!(s.copy().command, s.command);
    assert_eq!(s.display_name(), "build");
}

#[test]
fn the_time_of_a_job_is_from_its_start_to_its_end() {
    let mut s = status(1, 0);
    assert_eq!(s.elapsed(500), None);
    s.started_at = Some(400);
    assert_eq!(s.elapsed(460), Some(60));
    // A clock that went back gives no negative time.
    assert_eq!(s.elapsed(390), Some(0));
    s.finished_at = Some(430);
    assert_eq!(s.elapsed(10_000), Some(30));
}

#[test]
fn the_records_come_in_the_order_of_submission() {
    let ids: Vec<u128> = in_order(vec![status(9, 3), status(2, 1), status(5, 2)])
        .iter()
        .map(|s| s.id)
        .collect();
    assert_eq!(ids, vec![2, 5, 9]);
    assert!(in_order(vec![]).is_empty());
}

#[test]
fn the_name_of_a_temporary_file_is_its_own() {
    assert_eq!(tmp_name(Some("status.json"), 42, 7), ".status.json.tmp.42.7");
    assert_eq!(tmp_name(None, 1, 1), ".f.tmp.1.1");
}

#[test]
fn a_loss_of_output_belongs_to_its_stream() {
    let none = LogsDropped::default();
    assert!(!none.any());
    assert_eq!(none.of("stdout"), None);
    let some = LogsDropped {
        stderr_bytes: 10,
        stderr_lines: 2,
        limit: 16384,
        ..none
    };
    assert!(some.any());
    assert_eq!(some.of("stderr"), Some((10, 2)));
    assert_eq!(some.of("stdout"), None);
    assert_eq!(some.of("both"), None);
    let incomplete = LogsDropped {
        incomplete: true,
        ..none
    };
    assert!(incomplete.any());
}

#[test]
fn a_text_for_a_terminal_holds_no_control_character() {
    assert_eq!(printable("a\u{1b}[31mb\n"), "a [31mb ");
    let shown = visible("a\nb\u{1b}c");
    assert!(!shown.chars().any(|c| c.is_control()), "{shown}");
    assert!(shown.starts_with('a') && shown.ends_with('c'), "{shown}");
    assert_eq!(visible("plain"), "plain");
    assert_eq!(hexadecimal(0), "0");
    assert_eq!(hexadecimal(0x1b), "1b");
    assert_eq!(hexadecimal(u64::MAX), "ffffffffffffffff");
}

#[test]
fn a_safe_name_needs_no_quotation_marks() {
    for name in ["build", "a b; rm -rf /", "$(x)", "\n\t", "ünï-code", ""] {
        let safe = safe_name(name);
        assert!(
            safe.chars()
                .all(|c| c.is_ascii_alphanumeric() || "._-".contains(c)),
            "{safe}"
        );
        assert_eq!(safe_name(&safe), safe);
    }
    assert_eq!(safe_name("build-2.0_x"), "build-2.0_x");
    assert_eq!(safe_name("deploy prod$(id)"), "deploy_prod_id_");
    assert_eq!(safe_name("-version"), "_version");
    assert_eq!(safe_name(&"x".repeat(200)).len(), 128);
}

#[test]
fn a_new_id_is_no_id_that_is_taken() {
    let mut taken: Vec<String> = Vec::new();
    for _ in 0..200 {
        let id = new_id(&taken);
        assert!(!id.is_empty());
        assert!(!taken.contains(&id), "{id} repeated");
        taken.push(id);
    }
}

#[test]
fn a_process_is_the_same_by_its_number_and_its_start() {
    let a = process(50, Some(7), "sh", "/a");
    assert!(is_same_process(&a, &process(50, Some(7), "sh", "/b")));
    assert!(!is_same_process(&a, &process(50, Some(8), "sh", "/a")));
    assert!(!is_same_process(&a, &process(51, Some(7), "sh", "/a")));
}

#[test]
fn two_commands_of_one_session_share_it_both_ways() {
    let one = vec![process(60, Some(9), "sh", "/a"), process(50, Some(7), "agent", "/a")];
    let two = vec![process(70, Some(9), "sh", "/a"), process(50, Some(7), "agent", "/a")];
    let other = vec![process(80, Some(9), "sh", "/a"), process(51, Some(8), "agent", "/a")];
    assert_eq!(shared(&one, &two), shared(&two, &one));
    assert!(!shared(&one, &other));
    assert_eq!(boundary_index(&[]), None);
}

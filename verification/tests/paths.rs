use qex::paths::{
    config_file, daemon_log_path, extension, job_dir, jobs_dir, join, parent, path_hash,
    runtime_dir, same_path, socket_path, spawn_lock_path, state_dir, tail_path, with_extension,
    Places, MAX_SOCKET_PATH, NO_HOME,
};
use std::path::{Path, PathBuf};

fn places(home: Option<&str>, config: Option<&str>, state: Option<&str>) -> Places {
    Places {
        home: home.map(String::from),
        config_home: config.map(String::from),
        state_home: state.map(String::from),
        temp: "/tmp".to_string(),
    }
}

#[test]
fn xdg_overrides_are_honoured() {
    let p = places(None, Some("/tmp/qex-test-cfg"), Some("/tmp/qex-test-state"));
    assert_eq!(
        PathBuf::from(config_file(&p).unwrap()),
        PathBuf::from("/tmp/qex-test-cfg/qex.toml")
    );
    assert_eq!(
        PathBuf::from(jobs_dir(&p).unwrap()),
        PathBuf::from("/tmp/qex-test-state/qex/jobs")
    );
}

#[test]
fn defaults_fall_back_to_home() {
    let p = places(Some("/home/example"), None, None);
    assert_eq!(
        PathBuf::from(config_file(&p).unwrap()),
        PathBuf::from("/home/example/.config/qex.toml")
    );
    assert_eq!(
        PathBuf::from(state_dir(&p).unwrap()),
        PathBuf::from("/home/example/.local/state/qex")
    );
    assert_eq!(
        PathBuf::from(runtime_dir(&p).unwrap()),
        PathBuf::from("/home/example/.local/state/qex/run")
    );
}

#[test]
fn socket_path_stays_within_sun_path_limits() {
    let p = places(None, None, Some("/tmp/qex-sock-test"));
    let s = socket_path(&p, 1000).unwrap();
    assert_eq!(
        PathBuf::from(&s.path),
        PathBuf::from("/tmp/qex-sock-test/qex/run/s")
    );
    assert!(s.path.len() <= MAX_SOCKET_PATH);
    assert!(s.short_dir.is_none());
}

/// The socket depends on the state directory only. The values that decide hold
/// no runtime variable, so two sessions with one state directory agree.
#[test]
fn the_socket_does_not_depend_on_the_runtime_variable() {
    let with_variable = socket_path(&places(None, None, Some("/tmp/qex-one-state")), 7).unwrap();
    let without_variable = socket_path(
        &places(Some("/home/x"), Some("/y"), Some("/tmp/qex-one-state")),
        7,
    )
    .unwrap();
    assert_eq!(
        with_variable.path, without_variable.path,
        "one state directory must give one socket, and thus one coordinator"
    );
}

#[test]
fn a_long_state_directory_gives_a_short_socket_path() {
    let long = format!("/tmp/{}", "x".repeat(120));
    let p = places(None, None, Some(&long));
    let s = socket_path(&p, 1000).unwrap();
    let dir = s.short_dir.unwrap();
    assert!(s.path.len() <= MAX_SOCKET_PATH);
    assert!(dir.starts_with("/tmp/qex-1000-"));
    assert_eq!(s.path, format!("{dir}/s"));
    assert_eq!(
        dir,
        format!("/tmp/qex-1000-{}", path_hash(&format!("{long}/qex/run/s")))
    );
}

#[test]
fn an_empty_variable_is_no_variable() {
    let p = places(Some("/h"), Some(""), Some(""));
    assert_eq!(config_file(&p).unwrap(), "/h/.config/qex.toml");
    assert_eq!(state_dir(&p).unwrap(), "/h/.local/state/qex");
    let p = places(Some(""), None, None);
    assert_eq!(config_file(&p).unwrap_err(), NO_HOME);
    assert_eq!(socket_path(&p, 1).unwrap_err(), NO_HOME);
}

#[test]
fn the_files_stand_below_the_state_directory() {
    let p = places(None, None, Some("/s"));
    assert_eq!(spawn_lock_path(&p).unwrap(), "/s/qex/run/spawn.lock");
    assert_eq!(daemon_log_path(&p).unwrap(), "/s/qex/run/daemon.log");
    let id = uuid::Uuid::parse_str("550e8400-e29b-41d4-a716-446655440000").unwrap();
    assert_eq!(
        job_dir(&p, id.as_u128()).unwrap(),
        format!("/s/qex/jobs/{id}")
    );
}

/// The number of the FNV-1a method for a known text.
#[test]
fn the_hash_of_a_path_is_exact() {
    assert_eq!(path_hash(""), "cbf29ce484222325");
    assert_eq!(path_hash("a"), "af63dc4c8601ec8c");
    assert_eq!(path_hash("foobar"), "85944171f73967e8");
}

#[test]
fn the_paths_agree_with_the_standard_library() {
    let samples = [
        "", "/", "//", ".", "..", "./", "a", "a/", "a//b", "/a/b/", "a/./b", "./a", "/./a", "a/..",
        "a/.", "a/.b", ".bashrc", "x.tar.gz", "dir.d/file", "a/b.log/", "/a/b/..", "../..", "/..",
        "a.", "stdout.log", "é/ü.x", "././.", "/.",
    ];
    for a in samples {
        let path = Path::new(a);
        assert_eq!(
            parent(a),
            path.parent().map(|p| p.to_str().unwrap().to_string()),
            "{a:?}"
        );
        assert_eq!(
            extension(a),
            path.extension().map(|e| e.to_str().unwrap().to_string()),
            "{a:?}"
        );
        assert_eq!(
            with_extension(a, "log.tail"),
            path.with_extension("log.tail").to_str().unwrap(),
            "{a:?}"
        );
        for b in samples {
            assert_eq!(same_path(a, b), path == Path::new(b), "{a:?} {b:?}");
            assert_eq!(
                join(a, b),
                path.join(b).to_str().unwrap(),
                "{a:?} {b:?}"
            );
        }
    }
}

#[test]
fn the_end_of_a_log_stands_beside_its_start() {
    assert_eq!(tail_path("/j/stdout.log"), "/j/stdout.log.tail");
}

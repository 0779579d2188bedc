use qex::socket::{
    answer_by, answer_of, ask_socket, attempt_by, check_short_dir, claim_unused_dir,
    connect_once, connect_within, finish_by, finish_connect, hold_pid_file, pid_file_state,
    program_file_changed, program_path, sweep_socket_dirs, try_lock, unix_address, Attempt,
    ConnectCall, Connected, Found, LockCall, LockTry, Look, OpenFile, PidEvent, PidFile, PidHold,
    PollAnswer, SocketAnswer, Sweep,
};
use qex::system::Errors;

fn codes() -> Errors {
    Errors {
        srch: 1,
        noent: 2,
        intr: 3,
        again: 4,
        inprogress: 5,
        connrefused: 6,
        notsock: 7,
    }
}

/// A remedy must never name a step that the reader cannot take.
#[test]
fn a_file_that_is_not_there_does_not_ask_the_reader_to_delete_it() {
    let mut hold = hold_pid_file("/tmp/no-such-directory/s").unwrap();
    assert_eq!(hold.path, "/tmp/no-such-directory/pid");
    let answer = hold.next(PidEvent::Open(OpenFile::NotFound("not there".into())));
    let PidHold::Unusable(text) = answer else {
        panic!("a directory that is not there must give Unusable");
    };
    assert!(
        !text.contains("Delete that file"),
        "the message asks the reader to delete a file that is not there: {text}"
    );
    assert!(
        text.contains("Start qex again"),
        "the message must give a step that the reader can take: {text}"
    );
}

#[test]
fn a_coordinator_holds_its_pid_file_after_the_lock_and_the_number() {
    let mut hold = hold_pid_file("/run/s").unwrap();
    assert!(matches!(
        hold.next(PidEvent::Open(OpenFile::Opened)),
        PidHold::Lock
    ));
    // A sweep holds the lock for a moment.
    assert!(matches!(
        hold.next(PidEvent::Lock {
            lock: LockTry::Held,
            late: false
        }),
        PidHold::Sleep
    ));
    assert!(matches!(
        hold.next(PidEvent::Lock {
            lock: LockTry::Taken,
            late: false
        }),
        PidHold::Look
    ));
    assert!(matches!(
        hold.next(PidEvent::Links(Some(1))),
        PidHold::Write
    ));
    assert!(matches!(hold.next(PidEvent::Write(None)), PidHold::Held));
}

#[test]
fn a_file_with_no_name_is_opened_again_a_few_times() {
    let mut hold = hold_pid_file("/run/s").unwrap();
    for attempt in 1..=5 {
        assert_eq!(hold.attempt, attempt);
        hold.next(PidEvent::Open(OpenFile::Opened));
        hold.next(PidEvent::Lock {
            lock: LockTry::Taken,
            late: true,
        });
        let step = hold.next(PidEvent::Links(Some(0)));
        if attempt < 5 {
            assert!(matches!(step, PidHold::Open));
        } else {
            let PidHold::Unusable(text) = step else {
                panic!("the last try must end");
            };
            assert_eq!(
                text,
                "a sweep deleted the file /run/pid while qex took the lock on it. Start qex again."
            );
        }
    }
}

#[test]
fn each_fault_of_the_pid_file_has_its_text() {
    let mut hold = hold_pid_file("/run/s").unwrap();
    let PidHold::Unusable(text) = hold.next(PidEvent::Open(OpenFile::Fault("denied".into()))) else {
        panic!()
    };
    assert_eq!(
        text,
        "qex cannot open the file /run/pid: denied. Delete that file if no coordinator operates."
    );
    let mut hold = hold_pid_file("/run/s").unwrap();
    hold.next(PidEvent::Open(OpenFile::Opened));
    let step = hold.next(PidEvent::Lock {
        lock: LockTry::Failed("no locks".into()),
        late: false,
    });
    let PidHold::Unusable(text) = step else { panic!() };
    assert_eq!(
        text,
        "qex cannot lock the file /run/pid: no locks. Delete that file if no coordinator operates."
    );
    let mut hold = hold_pid_file("/run/s").unwrap();
    hold.next(PidEvent::Open(OpenFile::Opened));
    assert!(matches!(
        hold.next(PidEvent::Lock {
            lock: LockTry::Held,
            late: true
        }),
        PidHold::Busy
    ));
    let mut hold = hold_pid_file("/run/s").unwrap();
    hold.next(PidEvent::Open(OpenFile::Opened));
    hold.next(PidEvent::Lock {
        lock: LockTry::Taken,
        late: false,
    });
    hold.next(PidEvent::Links(None));
    let PidHold::Unusable(text) = hold.next(PidEvent::Write(Some("full".into()))) else {
        panic!()
    };
    assert_eq!(
        text,
        "qex cannot write the file /run/pid: full. Delete that file if no coordinator operates."
    );
    assert_eq!(
        hold_pid_file("/").unwrap_err(),
        "the socket path / has no directory"
    );
}

#[test]
fn a_signal_is_not_a_refusal_of_the_lock() {
    assert!(try_lock(1, LockCall::Interrupted, "stopped").is_none());
    assert!(matches!(
        try_lock(5, LockCall::Interrupted, "stopped"),
        Some(LockTry::Failed(t)) if t == "stopped"
    ));
    assert!(matches!(
        try_lock(1, LockCall::WouldBlock, ""),
        Some(LockTry::Held)
    ));
    assert!(matches!(
        try_lock(1, LockCall::Taken, ""),
        Some(LockTry::Taken)
    ));
    assert!(matches!(
        try_lock(1, LockCall::Fault("x".into()), ""),
        Some(LockTry::Failed(t)) if t == "x"
    ));
}

#[test]
fn the_state_of_a_pid_file_is_the_lock_and_not_the_number() {
    let open = OpenFile::Opened;
    assert_eq!(pid_file_state(&open, &LockTry::Taken), PidFile::Free);
    assert_eq!(pid_file_state(&open, &LockTry::Held), PidFile::Held);
    assert_eq!(
        pid_file_state(&open, &LockTry::Failed("".into())),
        PidFile::Unknown
    );
    assert_eq!(
        pid_file_state(&OpenFile::NotFound("".into()), &LockTry::Held),
        PidFile::Free
    );
    assert_eq!(
        pid_file_state(&OpenFile::Fault("".into()), &LockTry::Taken),
        PidFile::Unknown
    );
}

#[test]
fn three_errors_say_that_nobody_listens() {
    for e in [libc::ECONNREFUSED, libc::ENOENT, libc::ENOTSOCK] {
        assert_eq!(answer_of(Some(e)), SocketAnswer::NobodyListens);
        assert_eq!(
            connect_once(ConnectCall::Fault(Some(e))),
            Attempt::Answer(SocketAnswer::NobodyListens)
        );
    }
    assert_eq!(answer_of(Some(libc::EACCES)), SocketAnswer::Unknown);
    assert_eq!(answer_of(None), SocketAnswer::Unknown);
    assert_eq!(answer_by(Some(6), &codes()), SocketAnswer::NobodyListens);
    assert_eq!(answer_by(Some(1), &codes()), SocketAnswer::Unknown);
}

#[test]
fn a_connect_that_finishes_later_gives_its_answer() {
    assert_eq!(
        connect_once(ConnectCall::Fault(Some(libc::EINPROGRESS))),
        Attempt::Wait
    );
    assert_eq!(
        connect_once(ConnectCall::Fault(Some(libc::EAGAIN))),
        Attempt::Again
    );
    assert_eq!(
        finish_connect(PollAnswer::Ready(0)),
        Some(SocketAnswer::Answers)
    );
    assert_eq!(finish_connect(PollAnswer::Late), Some(SocketAnswer::Unknown));
    assert_eq!(
        finish_connect(PollAnswer::Unread),
        Some(SocketAnswer::Unknown)
    );
    assert_eq!(finish_connect(PollAnswer::Ready(libc::EAGAIN)), None);
    assert_eq!(finish_connect(PollAnswer::Fault(Some(libc::EINTR))), None);
    assert_eq!(
        finish_connect(PollAnswer::Ready(libc::ECONNREFUSED)),
        Some(SocketAnswer::NobodyListens)
    );
    assert_eq!(
        finish_by(PollAnswer::Fault(Some(2)), &codes()),
        Some(SocketAnswer::NobodyListens)
    );
    assert_eq!(
        attempt_by(ConnectCall::NoSocket, &codes()),
        Attempt::Answer(SocketAnswer::Unknown)
    );
    assert_eq!(
        attempt_by(ConnectCall::Connected, &codes()),
        Attempt::Answer(SocketAnswer::Answers)
    );
}

/// An unknown answer authorises nothing.
#[test]
fn only_a_missing_file_or_a_refusal_lets_a_coordinator_start() {
    let nobody = Some(SocketAnswer::NobodyListens);
    assert_eq!(
        connect_within(Look::Fault, nobody, true, false),
        Some(Connected::NoAnswer)
    );
    assert_eq!(
        connect_within(Look::TooLong, nobody, true, false),
        Some(Connected::NoAnswer)
    );
    assert_eq!(
        connect_within(Look::NotFound, None, true, false),
        Some(Connected::NobodyListens)
    );
    assert_eq!(
        connect_within(Look::Address, nobody, true, false),
        Some(Connected::NobodyListens)
    );
    assert_eq!(
        connect_within(Look::Address, Some(SocketAnswer::Answers), true, false),
        Some(Connected::Open)
    );
    assert_eq!(
        connect_within(Look::Address, Some(SocketAnswer::Answers), false, false),
        Some(Connected::NoAnswer)
    );
    assert_eq!(
        connect_within(Look::Address, Some(SocketAnswer::Unknown), true, false),
        Some(Connected::NoAnswer)
    );
    assert_eq!(connect_within(Look::Address, None, true, false), None);
    assert_eq!(
        connect_within(Look::Address, None, true, true),
        Some(Connected::NoAnswer)
    );
}

#[test]
fn a_question_to_a_socket_keeps_a_socket_that_may_live() {
    assert_eq!(
        ask_socket(Look::NotFound, None, false),
        Some(SocketAnswer::NobodyListens)
    );
    assert_eq!(
        ask_socket(Look::Fault, None, false),
        Some(SocketAnswer::Unknown)
    );
    assert_eq!(
        ask_socket(Look::TooLong, None, false),
        Some(SocketAnswer::Unknown)
    );
    assert_eq!(ask_socket(Look::Address, None, false), None);
    assert_eq!(
        ask_socket(Look::Address, None, true),
        Some(SocketAnswer::Unknown)
    );
    assert!(unix_address("/tmp/s", 108));
    assert!(!unix_address("éé", 4));
}

#[test]
fn the_sweep_looks_at_the_directories_of_this_user_only() {
    let own = vec!["/tmp/qex-7-aa".to_string()];
    let dir = Found::Entry {
        is_dir: true,
        owner: 7,
    };
    let sweep = |name: &str, found: Found| {
        sweep_socket_dirs(0, 3000, name, &format!("/tmp/{name}"), &own, found, 7)
    };
    assert_eq!(sweep("qex-7-bb", dir), Sweep::Claim);
    assert_eq!(sweep("qex-7-aa", dir), Sweep::Keep);
    assert_eq!(sweep("qex-70-bb", dir), Sweep::Keep);
    assert_eq!(sweep("other", dir), Sweep::Keep);
    assert_eq!(sweep("qex-7-bb", Found::Nothing), Sweep::Keep);
    assert_eq!(
        sweep(
            "qex-7-bb",
            Found::Entry {
                is_dir: true,
                owner: 8
            }
        ),
        Sweep::Keep
    );
    assert_eq!(
        sweep_socket_dirs(3000, 3000, "qex-7-bb", "/tmp/qex-7-bb", &own, dir, 7),
        Sweep::Stop
    );
}

#[test]
fn the_sweep_deletes_with_both_proofs_only() {
    let open = OpenFile::Opened;
    let nobody = SocketAnswer::NobodyListens;
    assert!(claim_unused_dir(&open, &LockTry::Taken, nobody));
    assert!(!claim_unused_dir(&open, &LockTry::Held, nobody));
    assert!(!claim_unused_dir(
        &open,
        &LockTry::Taken,
        SocketAnswer::Unknown
    ));
    assert!(!claim_unused_dir(
        &OpenFile::Fault("".into()),
        &LockTry::Taken,
        nobody
    ));
}

#[test]
fn the_short_directory_belongs_to_this_user() {
    assert!(check_short_dir("/tmp/d", Found::Nothing, 7).is_ok());
    let of = |is_dir: bool, owner: u32| {
        check_short_dir("/tmp/d", Found::Entry { is_dir, owner }, 7)
    };
    assert!(of(true, 7).is_ok());
    assert_eq!(
        of(false, 7).unwrap_err(),
        "qex needs the directory /tmp/d for its socket, but that path is a file"
    );
    assert_eq!(
        of(true, 8).unwrap_err(),
        "the directory /tmp/d belongs to the user 8, and qex will not use it"
    );
}

#[test]
fn a_replaced_program_file_starts_from_its_true_path() {
    assert_eq!(program_path("/bin/qex", true, false).unwrap(), "/bin/qex");
    assert_eq!(
        program_path("/bin/qex (deleted)", false, true).unwrap(),
        "/bin/qex"
    );
    assert!(program_path("/bin/qex (deleted)", false, false)
        .unwrap_err()
        .starts_with("the qex program file /bin/qex no longer exists. Something replaced"));
    assert_eq!(
        program_path("/bin/qex", false, true).unwrap_err(),
        "the qex program file /bin/qex no longer exists. Stop the coordinator and start it again."
    );
    assert!(program_file_changed(Some(false)));
    assert!(!program_file_changed(Some(true)));
    assert!(!program_file_changed(None));
}

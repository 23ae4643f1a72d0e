use skill_shelf::ipc::{
    check_shutdown_response, clears_state_after_ack, daemon_dir_from, default_lock_path,
    default_state_path, encode_frame, handshake_outcome, handshake_reply, plan_daemon_autostart,
    quote_windows_arg, token_accepted, windows_arguments, AutostartReason, DaemonControlResponse, FrameError, FrameReader, FrameStep,
    StateProbe,
};
use skill_shelf::lifecycle::{
    first_reason, parent_death_reason, process_exists, start_times_match, ParentDeathWatcher, ShutdownPoller, ShutdownReason,
    SignalWatcher, StdinEofWatcher,
};
use skill_shelf::lock::{HeldPaths, LockError};
use std::sync::atomic::AtomicBool;
use std::sync::Arc;
use sysinfo::{Pid, System};

fn find_missing_pid() -> u32 {
    for pid in (u16::MAX as u32..u32::MAX).rev().take(4096) {
        if !process_exists(pid) {
            return pid;
        }
    }

    panic!("failed to find a PID that is not currently in use");
}

#[test]
fn stdin_eof_watcher_only_fires_when_main_loop_reports_eof() {
    let (watcher, notifier) = StdinEofWatcher::new();

    notifier.notify_read(1);
    assert_eq!(watcher.poll(), None);

    notifier.notify_eof();
    assert_eq!(watcher.poll(), Some(ShutdownReason::StdinEof));
}

#[test]
fn parent_death_watcher_treats_start_time_mismatch_as_dead_parent() {
    let parent_pid = sysinfo::get_current_pid().unwrap().as_u32();
    let system = System::new_all();
    let process = system
        .process(Pid::from_u32(parent_pid))
        .expect("current process should exist");
    let actual_start_time = process.start_time();

    let watcher = ParentDeathWatcher::with_expected_start_time(parent_pid, actual_start_time + 1);

    assert!(!watcher.is_parent_alive());
    assert_eq!(watcher.poll(), Some(ShutdownReason::ParentDeath));
}

#[test]
fn parent_death_watcher_reports_parent_death_when_pid_does_not_exist() {
    let missing_pid = find_missing_pid();
    let watcher = ParentDeathWatcher::new(missing_pid);

    assert!(!watcher.is_parent_alive());
    assert_eq!(watcher.poll(), Some(ShutdownReason::ParentDeath));
}

#[test]
fn shutdown_poller_returns_stdin_eof_before_parent_death() {
    let (stdin_watcher, notifier) = StdinEofWatcher::new();
    let parent_watcher = ParentDeathWatcher::new(find_missing_pid());
    let poller = ShutdownPoller::new(Some(&stdin_watcher), Some(&parent_watcher));

    notifier.notify_eof();

    assert_eq!(poller.poll(), Some(ShutdownReason::StdinEof));
}

#[test]
fn shutdown_poller_returns_parent_death_when_stdin_is_still_open() {
    let (stdin_watcher, _notifier) = StdinEofWatcher::new();
    let parent_watcher = ParentDeathWatcher::new(find_missing_pid());
    let poller = ShutdownPoller::new(Some(&stdin_watcher), Some(&parent_watcher));

    assert_eq!(poller.poll(), Some(ShutdownReason::ParentDeath));
}

#[test]
fn current_process_is_an_alive_parent() {
    let pid = sysinfo::get_current_pid().unwrap().as_u32();
    let watcher = ParentDeathWatcher::new(pid);
    assert!(process_exists(pid));
    assert!(watcher.is_parent_alive());
    assert_eq!(watcher.poll(), None);
}

#[test]
fn start_times_must_be_recorded_and_equal() {
    assert!(start_times_match(Some(5), Some(5)));
    assert!(!start_times_match(Some(5), Some(6)));
    assert!(!start_times_match(None, Some(6)));
    assert!(!start_times_match(Some(5), None));
}

#[test]
fn eof_is_reported_once_per_notification() {
    let (watcher, notifier) = StdinEofWatcher::new();
    notifier.notify_read(0);
    assert_eq!(watcher.poll(), Some(ShutdownReason::StdinEof));
    assert_eq!(watcher.poll(), None);
}

#[test]
fn signal_watcher_reports_a_raised_flag_once() {
    let watcher = SignalWatcher::new(Arc::new(AtomicBool::new(false)));
    assert_eq!(watcher.poll(), None);
    watcher.trigger();
    assert_eq!(watcher.poll(), Some(ShutdownReason::Signal));
    assert_eq!(watcher.poll(), None);
}

#[test]
fn empty_poller_never_stops() {
    let poller = ShutdownPoller::new(None, None);
    assert_eq!(poller.poll(), None);
}

#[test]
fn autostart_plan_targets_daemon_subcommand_when_state_is_missing() {
    let plan = plan_daemon_autostart("/tmp/ss", "/bin/skill-shelf-test", StateProbe::Missing)
        .expect("missing state should require autostart");
    assert_eq!(plan.reason, AutostartReason::MissingState);
    assert!(!plan.cleaned_stale_state);
    assert_eq!(plan.command.program, "/bin/skill-shelf-test");
    assert_eq!(plan.command.args, vec!["daemon".to_string()]);
    assert_eq!(
        plan.command.env,
        vec![("SKILL_SHELF_DAEMON_DIR".to_string(), "/tmp/ss".to_string())]
    );
}

#[test]
fn autostart_plan_cleans_stale_state_before_returning_command() {
    // A state file naming pid u32::MAX names a daemon that is gone, so the
    // client removes it and reports the probe as cleaned.
    assert!(!process_exists(u32::MAX));
    let plan = plan_daemon_autostart("/tmp/ss", "/bin/x", StateProbe::CleanedStale)
        .expect("stale state should require autostart");
    assert_eq!(plan.reason, AutostartReason::StaleState);
    assert!(plan.cleaned_stale_state);
    assert!(plan_daemon_autostart("/tmp/ss", "/bin/x", StateProbe::Live).is_none());
}

#[test]
fn daemon_files_live_in_the_daemon_directory() {
    assert_eq!(default_state_path("/var/ss"), "/var/ss/daemon-state.json");
    assert_eq!(default_lock_path("/var/ss/"), "/var/ss/daemon.lock");
}

#[test]
fn daemon_directory_precedence() {
    assert_eq!(
        daemon_dir_from(Some("/o"), Some("/l"), true, Some("/x"), Some("/h"), "/t"),
        "/o"
    );
    assert_eq!(
        daemon_dir_from(None, Some("/l"), true, Some("/x"), Some("/h"), "/t"),
        "/l/skill-shelf"
    );
    assert_eq!(
        daemon_dir_from(None, Some("/l"), false, Some("/x"), Some("/h"), "/t"),
        "/x/skill-shelf"
    );
    assert_eq!(
        daemon_dir_from(None, None, false, None, Some("/h"), "/t"),
        "/h/.local/share/skill-shelf"
    );
    assert_eq!(daemon_dir_from(None, None, false, None, None, "/t"), "/t/skill-shelf");
}

#[test]
fn token_handshake_accepts_trimmed_token_only() {
    assert!(token_accepted("expected-token\n", "expected-token"));
    assert!(!token_accepted("wrong-token\n", "expected-token"));
    assert_eq!(handshake_reply(true), "OK\n");
    assert_eq!(handshake_reply(false), "ERR invalid token\n");
    assert!(handshake_outcome("OK\n").is_ok());
    assert_eq!(
        handshake_outcome("ERR invalid token\n").unwrap_err(),
        "token handshake rejected: ERR invalid token"
    );
}

fn read_frame(bytes: &[u8], eof: bool) -> FrameStep {
    let mut reader = FrameReader::new();
    for b in bytes {
        match reader.feed(Some(*b)) {
            FrameStep::NeedMore => {}
            other => return other,
        }
    }
    if eof {
        reader.feed(None)
    } else {
        FrameStep::NeedMore
    }
}

#[test]
fn frames_end_at_a_newline() {
    assert_eq!(read_frame(b"{\"a\":1}\nrest", false), FrameStep::Frame(b"{\"a\":1}".to_vec()));
    assert_eq!(read_frame(b"", true), FrameStep::Failed(FrameError::EndedBeforePayload));
    assert_eq!(read_frame(b"abc", true), FrameStep::Failed(FrameError::MissingDelimiter));
    assert_eq!(read_frame(b"\n", false), FrameStep::Failed(FrameError::EmptyPayload));
    assert_eq!(FrameError::EndedBeforePayload.message(), "ipc frame ended before payload");
    assert_eq!(FrameError::MissingDelimiter.message(), "ipc frame missing newline delimiter");
    assert_eq!(FrameError::EmptyPayload.message(), "ipc frame payload is empty");
    assert_eq!(encode_frame(b"x".to_vec()), b"x\n".to_vec());
}

#[test]
fn an_encoded_frame_reads_back_as_its_payload() {
    let payload = b"{\"requestId\":\"r-1\",\"accepted\":true}".to_vec();
    let mut stream = encode_frame(payload.clone());
    stream.extend_from_slice(b"{\"next\":2}\n");
    assert_eq!(read_frame(&stream, true), FrameStep::Frame(payload));
}

#[test]
fn a_client_token_line_is_accepted_exactly_when_it_matches() {
    for (token, expected) in [("abc", "abc"), ("abc", "abd"), ("", ""), ("", "x")] {
        let line = format!("{token}\n");
        let accepted = token_accepted(&line, expected);
        assert_eq!(accepted, token == expected);
        assert_eq!(handshake_outcome(handshake_reply(accepted)).is_ok(), token == expected);
    }
}

#[test]
fn shutdown_ack_must_answer_the_request() {
    let ok = DaemonControlResponse { request_id: "stop-req-1".into(), accepted: true };
    assert_eq!(check_shutdown_response("stop-req-1", ok.clone()), Ok(ok.clone()));
    let err = check_shutdown_response("stop-req-2", ok.clone()).unwrap_err();
    assert_eq!(
        err,
        "daemon shutdown response request_id mismatch: expected stop-req-2, got stop-req-1"
    );
    assert!(clears_state_after_ack(&ok, true));
    assert!(!clears_state_after_ack(&ok, false));
    let refused = DaemonControlResponse { request_id: "x".into(), accepted: false };
    assert!(!clears_state_after_ack(&refused, true));
}

#[test]
fn lock_paths_are_held_exclusively_until_released() {
    let mut held = HeldPaths::new();
    assert!(held.try_claim("/tmp/daemon.lock"));
    assert!(!held.try_claim("/tmp/daemon.lock"));
    assert!(held.try_claim("/tmp/other.lock"));
    held.release("/tmp/daemon.lock");
    assert!(!held.holds("/tmp/daemon.lock"));
    assert!(held.holds("/tmp/other.lock"));
    assert!(held.try_claim("/tmp/daemon.lock"));
}

#[test]
fn lock_error_messages() {
    assert_eq!(LockError::AlreadyRunning.message(), "daemon is already running");
    let io = LockError::Io(std::io::Error::new(std::io::ErrorKind::Other, "disk gone"));
    assert_eq!(io.message(), "disk gone");
}

#[test]
fn windows_arguments_are_quoted_like_the_c_runtime_reads_them() {
    assert_eq!(quote_windows_arg(""), "\"\"");
    assert_eq!(quote_windows_arg("daemon"), "daemon");
    assert_eq!(quote_windows_arg(r"C:\a\b"), r"C:\a\b");
    assert_eq!(quote_windows_arg("two words"), "\"two words\"");
    assert_eq!(quote_windows_arg(r#"say "hi""#), r#""say \"hi\"""#);
    assert_eq!(quote_windows_arg(r"C:\My Dir\"), r#""C:\My Dir\\""#);
    assert_eq!(quote_windows_arg(r#"a\"b c"#), r#""a\\\"b c""#);
    assert_eq!(
        windows_arguments(&vec!["daemon".to_string(), "x y".to_string()]),
        "daemon \"x y\""
    );
}

#[test]
fn stdin_end_of_file_wins_over_parent_death() {
    assert_eq!(first_reason(Some(ShutdownReason::StdinEof), Some(ShutdownReason::ParentDeath)), Some(ShutdownReason::StdinEof));
    assert_eq!(first_reason(None, Some(ShutdownReason::ParentDeath)), Some(ShutdownReason::ParentDeath));
    assert_eq!(first_reason(Some(ShutdownReason::StdinEof), None), Some(ShutdownReason::StdinEof));
    assert_eq!(first_reason(None, None), None);
}

#[test]
fn parent_death_follows_the_start_times() {
    assert_eq!(parent_death_reason(Some(7), Some(7)), None);
    assert_eq!(parent_death_reason(Some(7), Some(8)), Some(ShutdownReason::ParentDeath));
    assert_eq!(parent_death_reason(Some(7), None), Some(ShutdownReason::ParentDeath));
    assert_eq!(parent_death_reason(None, Some(7)), Some(ShutdownReason::ParentDeath));
}

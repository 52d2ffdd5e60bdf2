use sibyl::processing::{PollOutcome, ProcessHandler, ProcessStatus, ProcessWaitStatus};

fn strings(v: &[&str]) -> Vec<String> {
    v.iter().map(|a| a.to_string()).collect()
}

#[test]
fn ids_start_at_one_and_follow_each_other() {
    let mut t = ProcessHandler::new();
    let a = t.create_process(&"echo".to_string(), &strings(&["hi"]), &"/l/a.slog".to_string(), 100);
    let b = t.create_process(&"sleep".to_string(), &strings(&["5"]), &"/l/b.slog".to_string(), 101);
    assert_eq!(a, Some(1));
    assert_eq!(b, Some(2));
}

#[test]
fn entry_holds_what_was_registered() {
    let mut t = ProcessHandler::default();
    t.create_process(&"echo".to_string(), &strings(&["a", "b"]), &"/l/e.slog".to_string(), 77);
    let p = t.get_process_by_pid(1).unwrap();
    assert_eq!(p.pid, 1);
    assert_eq!(p.os_pid, 77);
    assert_eq!(p.cmdline, "echoab");
    assert_eq!(p.log_file, "/l/e.slog");
    assert!(!p.started.is_empty());
    assert_eq!(t.all_processes().len(), 1);
}

#[test]
fn status_found_right_after_registration() {
    let mut t = ProcessHandler::new();
    let id = t.create_process(&"echo".to_string(), &vec![], &"/l/x.slog".to_string(), 9).unwrap();
    let s = t.get_process_status(id, PollOutcome::StillRunning).unwrap();
    assert_eq!(s.internal_pid, id);
    assert!(matches!(s.status, ProcessWaitStatus::Running(9)));
    let s = t.get_process_status(id, PollOutcome::Exited(Some(0))).unwrap();
    assert!(matches!(s.status, ProcessWaitStatus::Exited(Some(0))));
    let s = t.get_process_status(id, PollOutcome::Failed).unwrap();
    assert!(matches!(s.status, ProcessWaitStatus::Unknown));
}

#[test]
fn status_of_unissued_ids_is_none() {
    let mut t = ProcessHandler::new();
    assert!(t.get_process_status(1, PollOutcome::StillRunning).is_none());
    t.create_process(&"echo".to_string(), &vec![], &"/l/x.slog".to_string(), 9);
    assert!(t.get_process_status(0, PollOutcome::StillRunning).is_none());
    assert!(t.get_process_status(2, PollOutcome::StillRunning).is_none());
    assert!(t.get_process_by_pid(2).is_none());
}

#[test]
fn wait_status_texts() {
    assert_eq!(ProcessWaitStatus::Running(12).to_text(), "running (pid 12)");
    assert_eq!(ProcessWaitStatus::Exited(Some(0)).to_text(), "exited (exit code 0)");
    assert_eq!(ProcessWaitStatus::Exited(Some(-3)).to_text(), "exited (exit code -3)");
    assert_eq!(ProcessWaitStatus::Exited(None).to_text(), "exited (no exit code)");
    assert_eq!(ProcessWaitStatus::Unknown.to_text(), "unknown");
}

#[test]
fn status_snapshot_text() {
    let s = ProcessStatus {
        cmdline: "echohello".to_string(),
        started: "2024-05-01 13:45:10 +02:00".to_string(),
        internal_pid: 3,
        os_pid: 4242,
        status: ProcessWaitStatus::Exited(Some(1)),
        log_path: "/l/echo.slog".to_string(),
    };
    assert_eq!(
        s.to_text(),
        "process status for (3)\n  command line : echohello\n  started at   : 2024-05-01 13:45:10 +02:00\n  OS PID       : 4242\n  wait status  : exited (exit code 1)\n  log file     : /l/echo.slog\n"
    );
}

#[test]
fn fresh_table_is_empty() {
    let t = ProcessHandler::new();
    assert!(t.all_processes().is_empty());
    assert!(!t.is_full());
}

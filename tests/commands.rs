use sibyl::commands::{
    error_response, response, CmdLatest, CmdList, CmdOnce, CmdPing, CmdStatus, Command,
    CommandContext,
};
use sibyl::logging::LogName;
use sibyl::processing::PollOutcome;
use sibyl::Request;

fn once(program: &str, args: &[&str]) -> CmdOnce {
    CmdOnce {
        program: program.to_string(),
        args: args.iter().map(|a| a.to_string()).collect(),
    }
}

fn context() -> CommandContext {
    CommandContext::new(&"/tmp/sibyllogs".to_string())
}

/// Runs `cmd` against `ctx` as the daemon does, with `os_pid` standing for
/// the spawned process; returns the response.
fn run_once(ctx: &mut CommandContext, cmd: &CmdOnce, os_pid: u32) -> String {
    match cmd.prepare(ctx) {
        Ok(log) => cmd.complete(ctx, &log, os_pid).msg,
        Err(r) => r.msg,
    }
}

#[test]
fn log_name_joins_program_args_and_moment() {
    let c = once("echo", &["hello", "world"]);
    let name = c.log_name_at(&"2024-05-01 13:45:10.5 +02:00".to_string());
    assert_eq!(name, "echo_hello_world_2024-05-01-13:45:10.5-+02:00");
}

#[test]
fn log_name_without_args() {
    let c = once("uptime", &[]);
    assert_eq!(c.log_name_at(&"t 1".to_string()), "uptime_t-1");
}

#[test]
fn log_name_from_clock_has_no_spaces() {
    let c = once("echo", &["hi"]);
    let name = c.log_name();
    assert!(name.starts_with("echo_hi_"));
    assert!(name.len() > "echo_hi_".len());
    assert!(!name.contains(' '));
}

#[test]
fn once_reports_sequential_ids() {
    let mut ctx = context();
    let first = run_once(&mut ctx, &once("echo", &["hello"]), 500);
    let second = run_once(&mut ctx, &once("sleep", &["1"]), 501);
    assert_eq!(first, "successfully executed process: echo | sibyl pid: 1");
    assert_eq!(second, "successfully executed process: sleep | sibyl pid: 2");
}

#[test]
fn once_records_log_under_directory() {
    let mut ctx = context();
    let c = once("echo", &["hello"]);
    let log = match c.prepare(&mut ctx) {
        Ok(log) => log,
        Err(_) => panic!("prepare failed on an empty table"),
    };
    assert!(log.get_path().starts_with("/tmp/sibyllogs/echo_hello_"));
    assert!(log.get_path().ends_with(".slog"));
    c.complete(&mut ctx, &log, 7);
    let p = ctx.prochandler.get_process_by_pid(1).unwrap();
    assert_eq!(p.log_file, *log.get_path());
    assert_eq!(p.cmdline, "echohello");
    assert_eq!(p.os_pid, 7);
}

#[test]
fn status_after_once_is_found() {
    let mut ctx = context();
    run_once(&mut ctx, &once("sleep", &["10"]), 321);
    let r = CmdStatus { pid: 1 }.execute(&ctx, PollOutcome::StillRunning);
    assert!(r.msg.starts_with("process status for (1)\n  command line : sleep10\n"));
    assert!(r.msg.contains("  OS PID       : 321\n"));
    assert!(r.msg.contains("  wait status  : running (pid 321)\n"));
}

#[test]
fn status_of_unissued_id_is_not_found() {
    let mut ctx = context();
    let r = CmdStatus { pid: 1 }.execute(&ctx, PollOutcome::StillRunning);
    assert_eq!(r.msg, "no process found with pid 1");
    run_once(&mut ctx, &once("true", &[]), 3);
    let r = CmdStatus { pid: 2 }.execute(&ctx, PollOutcome::Failed);
    assert_eq!(r.msg, "no process found with pid 2");
    let r = CmdStatus { pid: 0 }.execute(&ctx, PollOutcome::Failed);
    assert_eq!(r.msg, "no process found with pid 0");
}

#[test]
fn echo_hello_scenario() {
    let mut ctx = context();
    let c = once("echo", &["hello"]);
    assert_eq!(run_once(&mut ctx, &c, 900), "successfully executed process: echo | sibyl pid: 1");
    let r = CmdStatus { pid: 1 }.execute(&ctx, PollOutcome::Exited(Some(0)));
    assert!(r.msg.contains("  wait status  : exited (exit code 0)\n"));
    let latest = CmdLatest;
    assert_eq!(latest.pick(&vec![1_700_000_000_000_000_000]), Some(0));
    assert_eq!(response("hello\n".to_string()).msg, "hello\n");
}

#[test]
fn list_has_one_line_per_once_in_order() {
    let mut ctx = context();
    assert_eq!(CmdList.execute(&ctx).msg, "list of processes:\n");
    run_once(&mut ctx, &once("echo", &["a"]), 10);
    run_once(&mut ctx, &once("sleep", &["9"]), 11);
    CmdStatus { pid: 1 }.execute(&ctx, PollOutcome::Exited(Some(0)));
    assert_eq!(
        CmdList.execute(&ctx).msg,
        "list of processes:\n  SPID: 1 - echoa\n  SPID: 2 - sleep9\n"
    );
}

#[test]
fn ping_reports_elapsed_milliseconds() {
    let req = Request { command: Command::Ping(CmdPing), time: 1_000 };
    assert_eq!(CmdPing.respond(&req, 1_005).msg, "pong! 5ms");
    assert_eq!(CmdPing.respond(&req, 1_000).msg, "pong! 0ms");
}

#[test]
fn ping_with_clock_behind() {
    let req = Request { command: Command::Ping(CmdPing), time: 1_000 };
    assert_eq!(CmdPing.respond(&req, 990).msg, "pong! 0ms");
    let req = Request { command: Command::Ping(CmdPing), time: i64::MAX };
    assert_eq!(CmdPing.respond(&req, i64::MIN).msg, "pong! 0ms");
}

#[test]
fn ping_extremes() {
    let req = Request { command: Command::Ping(CmdPing), time: i64::MIN };
    assert_eq!(CmdPing.respond(&req, i64::MAX).msg, "pong! 18446744073709551615ms");
}

#[test]
fn ping_now_is_non_negative() {
    let req = Request { command: Command::Ping(CmdPing), time: 1_000 };
    let msg = CmdPing.execute(&req).msg;
    assert!(msg.starts_with("pong! "));
    assert!(msg.ends_with("ms"));
    assert!(!msg.contains('-'));
    let ms: i64 = msg["pong! ".len()..msg.len() - 2].parse().unwrap();
    assert!(ms > 1_000_000);
}

#[test]
fn latest_without_logs_is_none() {
    assert_eq!(CmdLatest.pick(&vec![]), None);
    let r = CmdLatest.no_logs_response(&context());
    assert_eq!(r.msg, "an error occurred: no log file in /tmp/sibyllogs");
}

#[test]
fn latest_picks_newest() {
    assert_eq!(CmdLatest.pick(&vec![3, 7, 5]), Some(1));
    assert_eq!(CmdLatest.pick(&vec![1, 2, 3, 4]), Some(3));
    assert_eq!(CmdLatest.pick(&vec![9, 2]), Some(0));
}

#[test]
fn latest_at_or_before_epoch_still_reported() {
    assert_eq!(CmdLatest.pick(&vec![0]), Some(0));
    assert_eq!(CmdLatest.pick(&vec![0, 0]), Some(0));
    assert_eq!(CmdLatest.pick(&vec![-5, -2, -9]), Some(1));
    assert_eq!(CmdLatest.pick(&vec![-5, 0]), Some(1));
}

#[test]
fn latest_tie_goes_to_first_listed() {
    assert_eq!(CmdLatest.pick(&vec![4, 8, 8, 1]), Some(1));
}

#[test]
fn error_response_text() {
    assert_eq!(error_response("failed to create process!").msg, "an error occurred: failed to create process!");
}

#[test]
fn once_from_cmdline() {
    let c = CmdOnce::from_cmdline(&vec!["ls".to_string(), "-l".to_string(), "/".to_string()]).unwrap();
    assert_eq!(c.program, "ls");
    assert_eq!(c.args, vec!["-l".to_string(), "/".to_string()]);
    let c = CmdOnce::from_cmdline(&vec!["true".to_string()]).unwrap();
    assert!(c.args.is_empty());
    assert!(CmdOnce::from_cmdline(&vec![]).is_none());
}

#[test]
fn status_from_arg() {
    assert_eq!(CmdStatus::from_arg(&"42".to_string()).unwrap().pid, 42);
    assert_eq!(CmdStatus::from_arg(&"007".to_string()).unwrap().pid, 7);
    assert_eq!(CmdStatus::from_arg(&"4294967295".to_string()).unwrap().pid, u32::MAX);
    assert!(CmdStatus::from_arg(&"4294967296".to_string()).is_none());
    assert!(CmdStatus::from_arg(&"99999999999999999999999".to_string()).is_none());
    assert!(CmdStatus::from_arg(&"".to_string()).is_none());
    assert!(CmdStatus::from_arg(&"1a".to_string()).is_none());
    assert!(CmdStatus::from_arg(&"-1".to_string()).is_none());
    assert_eq!(CmdStatus::from_arg(&"+5".to_string()).unwrap().pid, 5);
    assert_eq!(CmdStatus::from_arg(&"+4294967295".to_string()).unwrap().pid, u32::MAX);
    assert!(CmdStatus::from_arg(&"+".to_string()).is_none());
    assert!(CmdStatus::from_arg(&"++5".to_string()).is_none());
    assert!(CmdStatus::from_arg(&"5+".to_string()).is_none());
    assert!(CmdStatus::from_arg(&" 5".to_string()).is_none());
}

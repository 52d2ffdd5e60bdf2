use sibyl::codec::{frame, frame_length};
use sibyl::commands::{CmdLatest, CmdList, CmdOnce, CmdPing, CmdStatus, Command};
use sibyl::{Request, Response};

fn once(program: &str, args: &[&str]) -> CmdOnce {
    CmdOnce {
        program: program.to_string(),
        args: args.iter().map(|a| a.to_string()).collect(),
    }
}

fn round_trip(command: Command, time: i64) -> Request {
    let req = Request { command, time };
    let bytes = req.encode();
    match Request::decode(&bytes) {
        Ok(r) => r,
        Err(_) => panic!("the encoding of a request did not decode"),
    }
}

#[test]
fn frame_prefixes_length() {
    let f = frame(&[1, 2, 3]);
    assert_eq!(f, vec![3, 0, 0, 0, 0, 0, 0, 0, 1, 2, 3]);
    assert_eq!(frame_length(&f[..8]), 3);
}

#[test]
fn frame_of_empty_payload() {
    assert_eq!(frame(&[]), vec![0; 8]);
}

#[test]
fn frame_length_reads_little_endian() {
    assert_eq!(frame_length(&[0, 1, 0, 0, 0, 0, 0, 0]), 256);
    assert_eq!(frame_length(&[255; 8]), u64::MAX);
}

#[test]
fn ping_request_bytes() {
    let req = Request { command: Command::Ping(CmdPing), time: 5 };
    assert_eq!(req.encode(), vec![2, 0, 0, 0, 5, 0, 0, 0, 0, 0, 0, 0]);
}

#[test]
fn negative_time_bytes() {
    let req = Request { command: Command::List(CmdList), time: -1 };
    assert_eq!(req.encode(), vec![4, 0, 0, 0, 255, 255, 255, 255, 255, 255, 255, 255]);
}

#[test]
fn status_request_bytes() {
    let req = Request { command: Command::Status(CmdStatus { pid: 258 }), time: 0 };
    assert_eq!(req.encode(), vec![3, 0, 0, 0, 2, 1, 0, 0, 0, 0, 0, 0, 0, 0, 0, 0]);
}

#[test]
fn once_request_bytes() {
    let req = Request { command: Command::Once(once("ls", &["-l"])), time: 1 };
    let mut expected = vec![0, 0, 0, 0];
    expected.extend_from_slice(&[2, 0, 0, 0, 0, 0, 0, 0, b'l', b's']);
    expected.extend_from_slice(&[1, 0, 0, 0, 0, 0, 0, 0]);
    expected.extend_from_slice(&[2, 0, 0, 0, 0, 0, 0, 0, b'-', b'l']);
    expected.extend_from_slice(&[1, 0, 0, 0, 0, 0, 0, 0]);
    assert_eq!(req.encode(), expected);
}

#[test]
fn round_trip_once() {
    let r = round_trip(Command::Once(once("echo", &["hello", "wörld", ""])), 1_700_000_000_123);
    assert_eq!(r.time, 1_700_000_000_123);
    match r.command {
        Command::Once(c) => {
            assert_eq!(c.program, "echo");
            assert_eq!(c.args, vec!["hello".to_string(), "wörld".to_string(), String::new()]);
        }
        _ => panic!("wrong command kind"),
    }
}

#[test]
fn round_trip_latest() {
    let r = round_trip(Command::Latest(CmdLatest), -42);
    assert_eq!(r.time, -42);
    assert!(matches!(r.command, Command::Latest(_)));
}

#[test]
fn round_trip_ping() {
    let r = round_trip(Command::Ping(CmdPing), i64::MIN);
    assert_eq!(r.time, i64::MIN);
    assert!(matches!(r.command, Command::Ping(_)));
}

#[test]
fn round_trip_status() {
    let r = round_trip(Command::Status(CmdStatus { pid: u32::MAX }), i64::MAX);
    assert_eq!(r.time, i64::MAX);
    match r.command {
        Command::Status(c) => assert_eq!(c.pid, u32::MAX),
        _ => panic!("wrong command kind"),
    }
}

#[test]
fn round_trip_list() {
    let r = round_trip(Command::List(CmdList), 0);
    assert_eq!(r.time, 0);
    assert!(matches!(r.command, Command::List(_)));
}

#[test]
fn decode_rejects_empty() {
    assert!(Request::decode(&[]).is_err());
}

#[test]
fn decode_rejects_unknown_tag() {
    assert!(Request::decode(&[5, 0, 0, 0, 0, 0, 0, 0, 0, 0, 0, 0]).is_err());
}

#[test]
fn decode_rejects_trailing_bytes() {
    assert!(Request::decode(&[2, 0, 0, 0, 5, 0, 0, 0, 0, 0, 0, 0, 9]).is_err());
}

#[test]
fn decode_rejects_short_time() {
    assert!(Request::decode(&[2, 0, 0, 0, 5, 0, 0]).is_err());
}

#[test]
fn decode_rejects_truncated_text() {
    assert!(Request::decode(&[0, 0, 0, 0, 9, 0, 0, 0, 0, 0, 0, 0, b'l', b's']).is_err());
}

#[test]
fn decode_rejects_invalid_utf8() {
    let mut b = vec![0, 0, 0, 0];
    b.extend_from_slice(&[1, 0, 0, 0, 0, 0, 0, 0, 0xff]);
    b.extend_from_slice(&[0; 8]);
    b.extend_from_slice(&[0; 8]);
    assert!(Request::decode(&b).is_err());
}

#[test]
fn decode_rejects_too_many_args() {
    let mut b = vec![0, 0, 0, 0];
    b.extend_from_slice(&[2, 0, 0, 0, 0, 0, 0, 0, b'l', b's']);
    b.extend_from_slice(&[255; 8]);
    b.extend_from_slice(&[0; 8]);
    assert!(Request::decode(&b).is_err());
}

#[test]
fn response_bytes_and_round_trip() {
    let res = Response { msg: "héllo\n".to_string() };
    let bytes = res.encode();
    assert_eq!(&bytes[..8], &[7, 0, 0, 0, 0, 0, 0, 0]);
    assert_eq!(&bytes[8..], "héllo\n".as_bytes());
    match Response::decode(&bytes) {
        Ok(r) => assert_eq!(r.msg, "héllo\n"),
        Err(_) => panic!("the encoding of a response did not decode"),
    }
}

#[test]
fn response_decode_rejects_invalid_utf8() {
    assert!(Response::decode(&[2, 0, 0, 0, 0, 0, 0, 0, 0xc3, 0x28]).is_err());
}

#[test]
fn response_decode_rejects_trailing_bytes() {
    assert!(Response::decode(&[0, 0, 0, 0, 0, 0, 0, 0, 1]).is_err());
}

use knowsql::bitcask::BitCask;
use knowsql::server::{dispatch, step, StepResult};
use knowsql::command::Command;

fn fresh() -> BitCask {
    BitCask::open("./data".to_string(), Vec::new())
}

/// Feed a buffer to the connection loop, collecting replies in order, until
/// it is drained or the connection would close.
fn drive(cask: &mut BitCask, mut buffer: Vec<u8>) -> (Vec<u8>, Vec<u8>) {
    let mut replies: Vec<u8> = Vec::new();
    let mut appended_log: Vec<u8> = Vec::new();
    loop {
        match step(cask, &buffer) {
            StepResult::Reply { resp, appended, used, quit } => {
                replies.extend_from_slice(&resp);
                appended_log.extend_from_slice(&appended);
                buffer.drain(..used);
                if quit {
                    break;
                }
            }
            StepResult::Incomplete => break,
            StepResult::Malformed => break,
        }
    }
    (replies, appended_log)
}

#[test]
fn scenario_set_get_dbsize() {
    let mut cask = fresh();
    let input = b"*3\r\n$3\r\nSET\r\n$3\r\nfoo\r\n$3\r\nbar\r\n".to_vec();
    let (replies, _) = drive(&mut cask, input);
    assert_eq!(replies, b"+OK\r\n".to_vec());
    let (replies, _) = drive(&mut cask, b"*2\r\n$3\r\nGET\r\n$3\r\nfoo\r\n".to_vec());
    assert_eq!(replies, b"+bar\r\n".to_vec());
    let (replies, _) = drive(&mut cask, b"*1\r\n$6\r\nDBSIZE\r\n".to_vec());
    assert_eq!(replies, b":1\r\n".to_vec());
}

#[test]
fn scenario_get_missing_is_null_bulk() {
    let mut cask = fresh();
    let (replies, _) = drive(&mut cask, b"*2\r\n$3\r\nGET\r\n$7\r\nmissing\r\n".to_vec());
    assert_eq!(replies, b"$-1\r\n".to_vec());
}

#[test]
fn scenario_overwrite_counts_once() {
    let mut cask = fresh();
    let input = b"*3\r\n$3\r\nSET\r\n$1\r\na\r\n$1\r\n1\r\n*3\r\n$3\r\nSET\r\n$1\r\nb\r\n$1\r\n2\r\n*3\r\n$3\r\nSET\r\n$1\r\na\r\n$1\r\n3\r\n*1\r\n$6\r\nDBSIZE\r\n".to_vec();
    let (replies, _) = drive(&mut cask, input);
    assert_eq!(replies, b"+OK\r\n+OK\r\n+OK\r\n:2\r\n".to_vec());
    let (replies, _) = drive(&mut cask, b"*2\r\n$3\r\nGET\r\n$1\r\na\r\n".to_vec());
    assert_eq!(replies, b"+3\r\n".to_vec());
}

#[test]
fn scenario_reopen_preserves_store() {
    let mut cask = fresh();
    let input = b"*3\r\n$3\r\nSET\r\n$1\r\na\r\n$1\r\n1\r\n*3\r\n$3\r\nSET\r\n$1\r\nb\r\n$1\r\n2\r\n*3\r\n$3\r\nSET\r\n$1\r\na\r\n$1\r\n3\r\n".to_vec();
    let (_, appended) = drive(&mut cask, input);
    let mut reopened = BitCask::open("./data".to_string(), appended);
    let (replies, _) = drive(
        &mut reopened,
        b"*2\r\n$3\r\nGET\r\n$1\r\na\r\n*2\r\n$3\r\nGET\r\n$1\r\nb\r\n*1\r\n$6\r\nDBSIZE\r\n".to_vec(),
    );
    assert_eq!(replies, b"+3\r\n+2\r\n:2\r\n".to_vec());
}

#[test]
fn scenario_pipelined_pings() {
    let mut cask = fresh();
    let (replies, _) = drive(&mut cask, b"*1\r\n$4\r\nPING\r\n*1\r\n$4\r\nPING\r\n".to_vec());
    assert_eq!(replies, b"+PONG\r\n+PONG\r\n".to_vec());
}

#[test]
fn scenario_keys_pattern_filters() {
    let mut cask = fresh();
    drive(&mut cask, b"*3\r\n$3\r\nSET\r\n$5\r\nalpha\r\n$1\r\n1\r\n".to_vec());
    drive(&mut cask, b"*3\r\n$3\r\nSET\r\n$4\r\nbeta\r\n$1\r\n2\r\n".to_vec());
    let (replies, _) = drive(&mut cask, b"*2\r\n$4\r\nKEYS\r\n$2\r\n^a\r\n".to_vec());
    assert_eq!(replies, b"*1\r\n$5\r\nalpha\r\n".to_vec());
}

#[test]
fn keys_without_pattern_lists_all() {
    let mut cask = fresh();
    drive(&mut cask, b"*3\r\n$3\r\nSET\r\n$5\r\nalpha\r\n$1\r\n1\r\n".to_vec());
    drive(&mut cask, b"*3\r\n$3\r\nSET\r\n$4\r\nbeta\r\n$1\r\n2\r\n".to_vec());
    let (replies, _) = drive(&mut cask, b"*1\r\n$4\r\nKEYS\r\n".to_vec());
    assert_eq!(replies, b"*2\r\n$5\r\nalpha\r\n$4\r\nbeta\r\n".to_vec());
}

#[test]
fn keys_pattern_matches_substrings() {
    let mut cask = fresh();
    drive(&mut cask, b"*3\r\n$3\r\nSET\r\n$5\r\nalpha\r\n$1\r\n1\r\n".to_vec());
    drive(&mut cask, b"*3\r\n$3\r\nSET\r\n$4\r\nbeta\r\n$1\r\n2\r\n".to_vec());
    // "a" occurs inside both keys
    let (replies, _) = drive(&mut cask, b"*2\r\n$4\r\nKEYS\r\n$1\r\na\r\n".to_vec());
    assert_eq!(replies, b"*2\r\n$5\r\nalpha\r\n$4\r\nbeta\r\n".to_vec());
}

#[test]
fn invalid_pattern_is_an_error_reply() {
    let mut cask = fresh();
    drive(&mut cask, b"*3\r\n$3\r\nSET\r\n$5\r\nalpha\r\n$1\r\n1\r\n".to_vec());
    let (replies, _) = drive(&mut cask, b"*2\r\n$4\r\nKEYS\r\n$1\r\n[\r\n".to_vec());
    assert_eq!(replies, b"-invalid regex pattern\r\n".to_vec());
    // the connection stays usable: a later command still answers
    let (replies, _) = drive(&mut cask, b"*1\r\n$4\r\nPING\r\n".to_vec());
    assert_eq!(replies, b"+PONG\r\n".to_vec());
}

#[test]
fn echo_replies_with_message() {
    let mut cask = fresh();
    let (replies, _) = drive(&mut cask, b"*2\r\n$4\r\nECHO\r\n$5\r\nhello\r\n".to_vec());
    assert_eq!(replies, b"+hello\r\n".to_vec());
}

#[test]
fn quit_replies_ok_and_closes() {
    let mut cask = fresh();
    match step(&mut cask, b"*1\r\n$4\r\nQUIT\r\n*1\r\n$4\r\nPING\r\n") {
        StepResult::Reply { resp, quit, used, .. } => {
            assert_eq!(resp, b"+OK\r\n".to_vec());
            assert!(quit);
            assert_eq!(used, 14);
        }
        other => panic!("unexpected: {:?}", unreachable_debug(other)),
    }
}

#[test]
fn unknown_command_frame_is_malformed() {
    let mut cask = fresh();
    assert!(matches!(
        step(&mut cask, b"*1\r\n$5\r\nHELLO\r\n"),
        StepResult::Malformed
    ));
    // lowercase verbs are not accepted on the framed path
    assert!(matches!(
        step(&mut cask, b"*1\r\n$4\r\nping\r\n"),
        StepResult::Malformed
    ));
}

#[test]
fn partial_frame_is_incomplete() {
    let mut cask = fresh();
    assert!(matches!(step(&mut cask, b"*1\r\n$4\r\nPI"), StepResult::Incomplete));
}

#[test]
fn command_docs_lists_every_command() {
    let mut cask = fresh();
    let (resp, _, quit) = dispatch(&mut cask, Command::Command(knowsql::command::SubCommand::Docs));
    assert!(!quit);
    let text = String::from_utf8(resp).unwrap();
    assert!(text.starts_with("*16\r\n"));
    for name in ["DBSIZE", "COMMAND DOCS", "ECHO", "GET", "KEYS", "SET", "PING", "QUIT"] {
        assert!(text.contains(name), "missing {}", name);
    }
}

#[test]
fn dispatch_put_returns_record_bytes() {
    let mut cask = fresh();
    let (resp, appended, quit) = dispatch(&mut cask, Command::Put(b"k".to_vec(), b"v".to_vec()));
    assert_eq!(resp, b"+OK\r\n".to_vec());
    assert!(!quit);
    assert_eq!(appended.len(), 16 + 1 + 1);
    assert_eq!(&appended[8..16], &[0, 0, 0, 1, 0, 0, 0, 1]);
    assert_eq!(&appended[16..], b"kv");
}

fn unreachable_debug(r: StepResult) -> String {
    match r {
        StepResult::Reply { used, quit, .. } => format!("reply used={} quit={}", used, quit),
        StepResult::Incomplete => "incomplete".to_string(),
        StepResult::Malformed => "malformed".to_string(),
    }
}

#[test]
fn dbsize_on_empty_store_is_zero() {
    let mut cask = fresh();
    let (replies, _) = drive(&mut cask, b"*1\r\n$6\r\nDBSIZE\r\n".to_vec());
    assert_eq!(replies, b":0\r\n".to_vec());
}

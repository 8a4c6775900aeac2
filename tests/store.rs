use std::time::Duration;

use resp_store::cmd::{Command, ParseError, PushPopDirection, Step};
use resp_store::resp::RespData;
use resp_store::state::AppState;

fn request(parts: &[&str]) -> RespData {
    RespData::array(parts.iter().map(|p| RespData::bulk_string(p)).collect())
}

fn step(state: &mut AppState, parts: &[&str]) -> Step {
    let cmd = Command::try_from(request(parts)).unwrap();
    cmd.handle(state).unwrap()
}

fn run(state: &mut AppState, parts: &[&str]) -> Vec<u8> {
    match step(state, parts) {
        Step::Reply(r) => r.as_bytes(),
        Step::ReplyThenExpire { reply, .. } => reply.as_bytes(),
        Step::Park { .. } => panic!("the command parked"),
    }
}

fn bulks(items: &[&str]) -> Vec<u8> {
    RespData::array(items.iter().map(|p| RespData::bulk_string(p)).collect()).as_bytes()
}

fn runtime() -> tokio::runtime::Runtime {
    tokio::runtime::Builder::new_current_thread().enable_time().build().unwrap()
}

#[test]
fn ping_and_echo() {
    let mut s = AppState::new();
    assert_eq!(run(&mut s, &["PING"]), b"+PONG\r\n");
    assert_eq!(run(&mut s, &["ping"]), b"+PONG\r\n");
    assert_eq!(run(&mut s, &["ECHO", "hey"]), b"$3\r\nhey\r\n");
}

#[test]
fn set_then_get() {
    let mut s = AppState::new();
    assert_eq!(run(&mut s, &["SET", "k", "v"]), b"+OK\r\n");
    assert_eq!(run(&mut s, &["GET", "k"]), b"$1\r\nv\r\n");
    assert_eq!(run(&mut s, &["GET", "missing"]), b"$-1\r\n");
    assert_eq!(run(&mut s, &["SET", "k", "w"]), b"+OK\r\n");
    assert_eq!(run(&mut s, &["GET", "k"]), b"$1\r\nw\r\n");
}

#[test]
fn get_of_a_list_is_null() {
    let mut s = AppState::new();
    run(&mut s, &["RPUSH", "l", "a"]);
    assert_eq!(run(&mut s, &["GET", "l"]), b"$-1\r\n");
}

#[test]
fn expiry_removes_the_key() {
    let mut s = AppState::new();
    let key = match step(&mut s, &["SET", "k", "v", "px", "50"]) {
        Step::ReplyThenExpire { reply, key, millis } => {
            assert_eq!(reply.as_bytes(), b"+OK\r\n");
            assert_eq!(millis, 50);
            key
        }
        _ => panic!("no expiry scheduled"),
    };
    assert_eq!(run(&mut s, &["GET", "k"]), b"$1\r\nv\r\n");
    runtime().block_on(async { tokio::time::sleep(Duration::from_millis(60)).await });
    s.expire_key(&key);
    assert_eq!(run(&mut s, &["GET", "k"]), b"$-1\r\n");
}

#[test]
fn bad_expiry_is_refused() {
    let r = Command::try_from(request(&["SET", "k", "v", "PX", "soon"]));
    assert_eq!(r.unwrap_err(), ParseError::BadExpiry);
    let Command::SetKey { expires, args, .. } = Command::try_from(request(&["SET", "k", "v", "PX"])).unwrap() else {
        panic!("not a set");
    };
    assert_eq!(expires, None);
    assert_eq!(args, vec!["PX".to_string()]);
}

#[test]
fn lrange_normalises_indexes() {
    let mut s = AppState::new();
    assert_eq!(run(&mut s, &["RPUSH", "l", "a", "b", "c", "d", "e"]), b":5\r\n");
    assert_eq!(run(&mut s, &["LRANGE", "l", "-100", "-1"]), bulks(&["a", "b", "c", "d", "e"]));
    assert_eq!(run(&mut s, &["LRANGE", "l", "10", "20"]), bulks(&[]));
    assert_eq!(run(&mut s, &["LRANGE", "l", "-2", "-1"]), bulks(&["d", "e"]));
    assert_eq!(run(&mut s, &["LRANGE", "l", "3", "1"]), bulks(&[]));
    assert_eq!(run(&mut s, &["LRANGE", "l", "1", "2"]), bulks(&["b", "c"]));
    assert_eq!(run(&mut s, &["LRANGE", "nothing", "0", "-1"]), bulks(&[]));
}

#[test]
fn lpush_prepends_each_value() {
    let mut s = AppState::new();
    assert_eq!(run(&mut s, &["LPUSH", "k", "a", "b", "c"]), b":3\r\n");
    assert_eq!(run(&mut s, &["LRANGE", "k", "0", "-1"]), bulks(&["c", "b", "a"]));
    assert_eq!(run(&mut s, &["LLEN", "k"]), b":3\r\n");
    assert_eq!(run(&mut s, &["LLEN", "nothing"]), b":0\r\n");
}

#[test]
fn pop_of_one_is_bare() {
    let mut s = AppState::new();
    run(&mut s, &["RPUSH", "key", "x", "y"]);
    assert_eq!(run(&mut s, &["RPOP", "key"]), b"$1\r\ny\r\n");
    let mut s = AppState::new();
    run(&mut s, &["RPUSH", "key", "x", "y"]);
    assert_eq!(run(&mut s, &["RPOP", "key", "1"]), b"$1\r\ny\r\n");
    let mut s = AppState::new();
    run(&mut s, &["RPUSH", "key", "x", "y"]);
    assert_eq!(run(&mut s, &["RPOP", "key", "2"]), bulks(&["y", "x"]));
}

#[test]
fn pop_more_than_held_takes_the_whole_list() {
    let mut s = AppState::new();
    run(&mut s, &["RPUSH", "key", "x", "y"]);
    assert_eq!(run(&mut s, &["LPOP", "key", "5"]), bulks(&["x", "y"]));
    assert_eq!(run(&mut s, &["LLEN", "key"]), b":0\r\n");
    assert_eq!(run(&mut s, &["LPOP", "key", "0"]), bulks(&[]));
}

#[test]
fn pop_on_absent_key_creates_nothing() {
    let mut s = AppState::new();
    assert_eq!(run(&mut s, &["LPOP", "k"]), bulks(&[]));
    assert_eq!(run(&mut s, &["GET", "k"]), b"$-1\r\n");
    assert_eq!(run(&mut s, &["LLEN", "k"]), b":0\r\n");
}

#[test]
fn list_commands_on_a_string_key() {
    let mut s = AppState::new();
    run(&mut s, &["SET", "k", "v"]);
    let wrong = b"-WRONGTYPE Operation against a key holding the wrong kind of value\r\n".to_vec();
    assert_eq!(run(&mut s, &["RPUSH", "k", "a"]), wrong);
    assert_eq!(run(&mut s, &["LPOP", "k"]), wrong);
    assert_eq!(run(&mut s, &["GET", "k"]), b"$1\r\nv\r\n");
}

#[test]
fn blocking_pop_wakes_on_push() {
    let mut s = AppState::new();
    let signal = match step(&mut s, &["BLPOP", "k", "0"]) {
        Step::Park { key, direction, timeout_secs, signal } => {
            assert_eq!(key, "k");
            assert_eq!(direction, PushPopDirection::Left);
            assert_eq!(timeout_secs, 0);
            signal
        }
        _ => panic!("did not park"),
    };
    assert_eq!(s.pending_waiters(&"k".to_string()), 1);
    // the store is free while the pop is parked: another connection pushes
    assert_eq!(run(&mut s, &["RPUSH", "k", "v"]), b":1\r\n");
    assert_eq!(s.pending_waiters(&"k".to_string()), 0);
    let woken = runtime().block_on(async { tokio::time::timeout(Duration::from_secs(1), signal.notified()).await });
    assert!(woken.is_ok());
    let reply = s.finish_blocking_pop(&"k".to_string(), PushPopDirection::Left, false);
    assert_eq!(reply.as_bytes(), bulks(&["k", "v"]));
}

#[test]
fn blocking_pop_times_out() {
    let mut s = AppState::new();
    let signal = match step(&mut s, &["BLPOP", "k", "1"]) {
        Step::Park { timeout_secs, signal, .. } => {
            assert_eq!(timeout_secs, 1);
            signal
        }
        _ => panic!("did not park"),
    };
    let rt = runtime();
    let waited = rt.block_on(async { tokio::time::timeout(Duration::from_secs(1), signal.notified()).await });
    assert!(waited.is_err());
    let reply = s.finish_blocking_pop(&"k".to_string(), PushPopDirection::Left, true);
    assert_eq!(reply.as_bytes(), b"$-1\r\n");
    assert_eq!(s.pending_waiters(&"k".to_string()), 0);
    run(&mut s, &["RPUSH", "k", "v"]);
    let spurious = rt.block_on(async { tokio::time::timeout(Duration::from_millis(20), signal.notified()).await });
    assert!(spurious.is_err());
}

#[test]
fn blocking_forms_take_one_element() {
    let Command::ListPop { count, blocking, direction, .. } = Command::try_from(request(&["BRPOP", "k", "5"])).unwrap() else {
        panic!("not a pop");
    };
    assert_eq!((count, blocking, direction), (1, Some(5), PushPopDirection::Right));
    let mut s = AppState::new();
    run(&mut s, &["RPUSH", "k", "a", "b"]);
    let reply = s.finish_blocking_pop(&"k".to_string(), PushPopDirection::Right, false);
    assert_eq!(reply.as_bytes(), bulks(&["k", "b"]));
    assert_eq!(run(&mut s, &["LRANGE", "k", "0", "-1"]), bulks(&["a"]));
}

#[test]
fn requests_that_are_not_commands() {
    assert_eq!(Command::try_from(RespData::Null).unwrap_err(), ParseError::NotACommand);
    assert_eq!(Command::try_from(RespData::array(vec![])).unwrap_err(), ParseError::NotACommand);
    assert_eq!(
        Command::try_from(RespData::array(vec![RespData::Integer(1)])).unwrap_err(),
        ParseError::BadName
    );
    assert_eq!(Command::try_from(request(&["FLY"])).unwrap_err(), ParseError::UnknownCommand);
    assert_eq!(Command::try_from(request(&["GET"])).unwrap_err(), ParseError::BadArgument);
    assert_eq!(Command::try_from(request(&["LPUSH", "k"])).unwrap_err(), ParseError::BadArgument);
    assert_eq!(Command::try_from(request(&["LRANGE", "k", "0", "x"])).unwrap_err(), ParseError::BadArgument);
}

#[test]
fn lrange_takes_integer_arguments() {
    let mut s = AppState::new();
    run(&mut s, &["RPUSH", "l", "a", "b", "c"]);
    let req = RespData::array(vec![
        RespData::bulk_string("LRANGE"),
        RespData::bulk_string("l"),
        RespData::Integer(1),
        RespData::simple_string("-1"),
    ]);
    let Step::Reply(r) = Command::try_from(req).unwrap().handle(&mut s).unwrap() else {
        panic!("no reply");
    };
    assert_eq!(r.as_bytes(), bulks(&["b", "c"]));
}

#[test]
fn names_are_upper_cased_as_text() {
    let mut s = AppState::new();
    assert_eq!(run(&mut s, &["pıng"]), b"+PONG\r\n");
    assert_eq!(run(&mut s, &["Echo", "x"]), b"$1\r\nx\r\n");
}

#[test]
fn keys_and_echo_text_replace_bad_bytes() {
    let mut s = AppState::new();
    let req = RespData::array(vec![RespData::bulk_string("ECHO"), RespData::BulkString(Some(vec![b'a', 0xff]))]);
    let Step::Reply(r) = Command::try_from(req).unwrap().handle(&mut s).unwrap() else {
        panic!("no reply");
    };
    assert_eq!(r.as_bytes(), b"$4\r\na\xef\xbf\xbd\r\n");
}

#[test]
fn expiry_accepts_a_plus_sign() {
    let Command::SetKey { expires, .. } = Command::try_from(request(&["SET", "k", "v", "EX", "1", "Px", "+25"])).unwrap() else {
        panic!("not a set");
    };
    assert_eq!(expires, Some(25));
}

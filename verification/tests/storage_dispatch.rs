//! Tests of the storage engine and the command dispatcher: set/get,
//! overwrite, time-to-live expiry, and the command table.

use respkv::codec::{decode, encode};
use respkv::dispatch::{dispatch, extract_command, parse_millis, unpack_bulk_str, CommandError};
use respkv::resp::Value;
use respkv::storage::Storage;

fn bulk(s: &str) -> Value {
    Value::BulkString(s.to_string())
}

fn req(parts: &[&str]) -> Value {
    Value::Array(parts.iter().map(|p| bulk(p)).collect())
}

#[test]
fn set_then_get_returns_value() {
    let mut st = Storage::new();
    let ok = st.set("k".to_string(), "v".to_string(), None, 100);
    assert_eq!(ok, Value::SimpleString("OK".to_string()));
    assert_eq!(st.get("k".to_string(), 100), bulk("v"));
    assert_eq!(st.get("k".to_string(), 1_000_000), bulk("v"));
}

#[test]
fn default_store_is_empty() {
    let mut st = Storage::default();
    assert_eq!(st.get("k".to_string(), 0), Value::Null);
}

#[test]
fn get_missing_key_is_null() {
    let mut st = Storage::new();
    assert_eq!(st.get("nope".to_string(), 0), Value::Null);
}

#[test]
fn overwrite_returns_second_value() {
    let mut st = Storage::new();
    st.set("k".to_string(), "v1".to_string(), None, 10);
    st.set("k".to_string(), "v2".to_string(), None, 20);
    assert_eq!(st.get("k".to_string(), 30), bulk("v2"));
}

#[test]
fn expiry_boundary_evicts() {
    let mut st = Storage::new();
    st.set("k".to_string(), "v".to_string(), Some(100), 0);
    assert_eq!(st.get("k".to_string(), 150), Value::Null);
    assert_eq!(st.get("k".to_string(), 151), Value::Null);
    assert_eq!(st.get("k".to_string(), 0), Value::Null);
}

#[test]
fn expiry_exact_deadline_still_live() {
    let mut st = Storage::new();
    st.set("k".to_string(), "v".to_string(), Some(100), 50);
    assert_eq!(st.get("k".to_string(), 150), bulk("v"));
    assert_eq!(st.get("k".to_string(), 151), Value::Null);
}

#[test]
fn no_premature_expiry() {
    let mut st = Storage::new();
    st.set("k".to_string(), "v".to_string(), Some(100), 7);
    assert_eq!(st.get("k".to_string(), 7), bulk("v"));
}

#[test]
fn new_set_resets_ttl() {
    let mut st = Storage::new();
    st.set("k".to_string(), "v1".to_string(), Some(10), 0);
    st.set("k".to_string(), "v2".to_string(), None, 5);
    assert_eq!(st.get("k".to_string(), 1_000), bulk("v2"));
}

#[test]
fn distinct_keys_do_not_interfere() {
    let mut st = Storage::new();
    st.set("a".to_string(), "1".to_string(), None, 0);
    st.set("b".to_string(), "2".to_string(), None, 0);
    assert_eq!(st.get("a".to_string(), 1), bulk("1"));
    assert_eq!(st.get("b".to_string(), 1), bulk("2"));
}

#[test]
fn dispatch_ping() {
    let mut st = Storage::new();
    let r = dispatch(req(&["PING"]), &mut st, 0);
    assert_eq!(r, Ok(Value::SimpleString("PONG".to_string())));
}

#[test]
fn dispatch_ping_lowercase() {
    let mut st = Storage::new();
    let r = dispatch(req(&["ping"]), &mut st, 0);
    assert_eq!(r, Ok(Value::SimpleString("PONG".to_string())));
}

#[test]
fn dispatch_echo() {
    let mut st = Storage::new();
    let r = dispatch(req(&["ECHO", "hello"]), &mut st, 0);
    assert_eq!(r, Ok(bulk("hello")));
    let r = dispatch(req(&["echo", "hello world  with spaces"]), &mut st, 0);
    assert_eq!(r, Ok(bulk("hello world  with spaces")));
}

#[test]
fn dispatch_set_get() {
    let mut st = Storage::new();
    let r = dispatch(req(&["SET", "k", "v"]), &mut st, 0);
    assert_eq!(r, Ok(Value::SimpleString("OK".to_string())));
    let r = dispatch(req(&["GET", "k"]), &mut st, 5);
    assert_eq!(r, Ok(bulk("v")));
}

#[test]
fn dispatch_set_with_px_expires() {
    let mut st = Storage::new();
    dispatch(req(&["SET", "k", "v", "PX", "100"]), &mut st, 0).unwrap();
    assert_eq!(dispatch(req(&["GET", "k"]), &mut st, 50), Ok(bulk("v")));
    assert_eq!(dispatch(req(&["GET", "k"]), &mut st, 150), Ok(Value::Null));
    assert_eq!(dispatch(req(&["GET", "k"]), &mut st, 151), Ok(Value::Null));
}

#[test]
fn dispatch_set_px_bad_millis_is_argument_error() {
    let mut st = Storage::new();
    let r = dispatch(req(&["SET", "k", "v", "px", "10x0"]), &mut st, 0);
    assert_eq!(r, Err(CommandError::Argument));
}

#[test]
fn dispatch_set_other_option_ignored() {
    let mut st = Storage::new();
    let r = dispatch(req(&["SET", "k", "v", "nx", "1"]), &mut st, 0);
    assert_eq!(r, Ok(Value::SimpleString("OK".to_string())));
    assert_eq!(dispatch(req(&["GET", "k"]), &mut st, 1_000_000), Ok(bulk("v")));
}

#[test]
fn dispatch_set_with_dangling_px_ignored() {
    let mut st = Storage::new();
    let r = dispatch(req(&["SET", "k", "v", "px"]), &mut st, 0);
    assert_eq!(r, Ok(Value::SimpleString("OK".to_string())));
    assert_eq!(dispatch(req(&["GET", "k"]), &mut st, 1_000_000), Ok(bulk("v")));
}

#[test]
fn dispatch_unknown_command() {
    let mut st = Storage::new();
    let r = dispatch(req(&["FLUSHALL"]), &mut st, 0);
    assert_eq!(r, Err(CommandError::Unrecognized));
}

#[test]
fn dispatch_bad_arity() {
    let mut st = Storage::new();
    assert_eq!(dispatch(req(&["GET"]), &mut st, 0), Err(CommandError::Argument));
    assert_eq!(dispatch(req(&["ECHO"]), &mut st, 0), Err(CommandError::Argument));
    assert_eq!(dispatch(req(&["SET", "k"]), &mut st, 0), Err(CommandError::Argument));
    assert_eq!(dispatch(req(&["PING", "x"]), &mut st, 0), Err(CommandError::Argument));
}

#[test]
fn dispatch_bad_shape_is_format_error() {
    let mut st = Storage::new();
    assert_eq!(dispatch(bulk("PING"), &mut st, 0), Err(CommandError::Format));
    assert_eq!(dispatch(Value::Array(vec![]), &mut st, 0), Err(CommandError::Format));
    assert_eq!(
        dispatch(Value::Array(vec![Value::Null, bulk("x")]), &mut st, 0),
        Err(CommandError::Format)
    );
}

#[test]
fn dispatch_non_bulk_argument_is_argument_error() {
    let mut st = Storage::new();
    let r = dispatch(Value::Array(vec![bulk("GET"), Value::Null]), &mut st, 0);
    assert_eq!(r, Err(CommandError::Argument));
}

#[test]
fn extract_command_lowercases_name() {
    let (name, args) = extract_command(req(&["EcHo", "Hi"])).unwrap();
    assert_eq!(name, "echo".to_string());
    assert_eq!(args, vec![bulk("Hi")]);
}

#[test]
fn extract_command_rejects_bad_shapes() {
    assert_eq!(extract_command(bulk("x")), Err(CommandError::Format));
    assert_eq!(extract_command(Value::Array(vec![])), Err(CommandError::Format));
}

#[test]
fn unpack_bulk_str_only_takes_bulk() {
    assert_eq!(unpack_bulk_str(bulk("v")), Ok("v".to_string()));
    assert_eq!(unpack_bulk_str(Value::Null), Err(CommandError::Argument));
    assert_eq!(
        unpack_bulk_str(Value::SimpleString("v".to_string())),
        Err(CommandError::Argument)
    );
}

#[test]
fn parse_millis_values() {
    assert_eq!(parse_millis("0"), Some(0));
    assert_eq!(parse_millis("100"), Some(100));
    assert_eq!(parse_millis("007"), Some(7));
    assert_eq!(parse_millis("18446744073709551615"), Some(u64::MAX));
    assert_eq!(parse_millis("18446744073709551616"), None);
    assert_eq!(parse_millis(""), None);
    assert_eq!(parse_millis("-5"), None);
    assert_eq!(parse_millis("12a"), None);
}

#[test]
fn full_request_cycle_over_the_wire() {
    let mut st = Storage::new();
    let (request, used) = decode(b"*3\r\n$3\r\nSET\r\n$1\r\nk\r\n$1\r\nv\r\n")
        .unwrap()
        .unwrap();
    assert_eq!(used, 27);
    let reply = dispatch(request, &mut st, 0).unwrap();
    assert_eq!(encode(&reply), b"+OK\r\n".to_vec());
    let (request, _) = decode(b"*2\r\n$3\r\nGET\r\n$1\r\nk\r\n").unwrap().unwrap();
    let reply = dispatch(request, &mut st, 1).unwrap();
    assert_eq!(encode(&reply), b"$1\r\nv\r\n".to_vec());
}

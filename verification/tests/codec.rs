//! Tests of the wire-protocol codec: encoding, decoding, round trips,
//! incomplete buffers and malformed frames.

use respkv::codec::{decode, encode, ProtocolError};
use respkv::resp::Value;

fn bulk(s: &str) -> Value {
    Value::BulkString(s.to_string())
}

#[test]
fn encode_simple_string() {
    let v = Value::SimpleString("OK".to_string());
    assert_eq!(encode(&v), b"+OK\r\n".to_vec());
}

#[test]
fn encode_error_line() {
    let v = Value::Error("ERR oops".to_string());
    assert_eq!(encode(&v), b"-ERR oops\r\n".to_vec());
}

#[test]
fn encode_bulk_string() {
    assert_eq!(encode(&bulk("hello")), b"$5\r\nhello\r\n".to_vec());
    assert_eq!(encode(&bulk("")), b"$0\r\n\r\n".to_vec());
}

#[test]
fn encode_null() {
    assert_eq!(encode(&Value::Null), b"$-1\r\n".to_vec());
}

#[test]
fn encode_array() {
    let v = Value::Array(vec![bulk("ECHO"), bulk("hi")]);
    assert_eq!(encode(&v), b"*2\r\n$4\r\nECHO\r\n$2\r\nhi\r\n".to_vec());
}

#[test]
fn encode_long_length_field() {
    let content = "x".repeat(1234);
    let v = bulk(&content);
    let mut expected = b"$1234\r\n".to_vec();
    expected.extend_from_slice(content.as_bytes());
    expected.extend_from_slice(b"\r\n");
    assert_eq!(encode(&v), expected);
}

#[test]
fn decode_simple_string() {
    let r = decode(b"+PONG\r\n").unwrap().unwrap();
    assert_eq!(r.0, Value::SimpleString("PONG".to_string()));
    assert_eq!(r.1, 7);
}

#[test]
fn decode_bulk_string() {
    let r = decode(b"$5\r\nhello\r\n").unwrap().unwrap();
    assert_eq!(r.0, bulk("hello"));
    assert_eq!(r.1, 11);
}

#[test]
fn decode_null() {
    let r = decode(b"$-1\r\n").unwrap().unwrap();
    assert_eq!(r.0, Value::Null);
    assert_eq!(r.1, 5);
}

#[test]
fn decode_array() {
    let r = decode(b"*2\r\n$4\r\nECHO\r\n$2\r\nhi\r\n").unwrap().unwrap();
    assert_eq!(r.0, Value::Array(vec![bulk("ECHO"), bulk("hi")]));
    assert_eq!(r.1, 22);
}

#[test]
fn decode_leaves_trailing_bytes() {
    let r = decode(b"+OK\r\n+NEXT\r\n").unwrap().unwrap();
    assert_eq!(r.0, Value::SimpleString("OK".to_string()));
    assert_eq!(r.1, 5);
}

#[test]
fn round_trip_values() {
    let values = vec![
        Value::SimpleString("OK".to_string()),
        Value::SimpleString(String::new()),
        bulk(""),
        bulk("hello world"),
        bulk("line\r\nbreaks are fine in bulk strings"),
        bulk("caf\u{e9} \u{263a}"),
        Value::Null,
        Value::Error("ERR something".to_string()),
        Value::Array(vec![]),
        Value::Array(vec![bulk("SET"), bulk("k"), bulk("v")]),
        Value::Array(vec![Value::Array(vec![Value::Null, bulk("x")]), bulk("y")]),
    ];
    for v in values {
        let bytes = encode(&v);
        let (back, used) = decode(&bytes).unwrap().unwrap();
        assert_eq!(back, v);
        assert_eq!(used, bytes.len());
    }
}

#[test]
fn decode_incomplete_frames() {
    assert_eq!(decode(b"").unwrap(), None);
    assert_eq!(decode(b"+OK").unwrap(), None);
    assert_eq!(decode(b"+OK\r").unwrap(), None);
    assert_eq!(decode(b"$5\r\nab").unwrap(), None);
    assert_eq!(decode(b"$5\r\nhello").unwrap(), None);
    assert_eq!(decode(b"$").unwrap(), None);
    assert_eq!(decode(b"$-1\r").unwrap(), None);
    assert_eq!(decode(b"*2\r\n$1\r\na\r\n").unwrap(), None);
    assert_eq!(decode(b"*1\r\n").unwrap(), None);
}

#[test]
fn decode_malformed_length_closes() {
    assert_eq!(decode(b"$abc\r\n"), Err(ProtocolError));
}

#[test]
fn decode_malformed_frames() {
    assert_eq!(decode(b"?junk\r\n"), Err(ProtocolError));
    assert_eq!(decode(b"$1x\r\n"), Err(ProtocolError));
    assert_eq!(decode(b"$-2\r\n"), Err(ProtocolError));
    assert_eq!(decode(b"*-1\r\n"), Err(ProtocolError));
    assert_eq!(decode(b"*abc\r\n"), Err(ProtocolError));
    assert_eq!(decode(b"+bad\rline\r\n"), Err(ProtocolError));
    assert_eq!(decode(b"+bad\nline\r\n"), Err(ProtocolError));
    assert_eq!(decode(b"$3\r\nabcde\r\n"), Err(ProtocolError));
    assert_eq!(decode(b"*1\r\n?\r\n"), Err(ProtocolError));
}

#[test]
fn decode_oversized_length_is_malformed() {
    assert_eq!(decode(b"$99999999999999999999\r\n"), Err(ProtocolError));
}

#[test]
fn decode_bulk_invalid_utf8_is_malformed() {
    assert_eq!(decode(b"$2\r\n\xff\xfe\r\n"), Err(ProtocolError));
}

use redis_starter_rust::{decode, encode, Decoded, Value};

fn bulk(s: &str) -> Value {
    Value::BulkString(s.as_bytes().to_vec())
}

fn simple(s: &str) -> Value {
    Value::SimpleString(s.as_bytes().to_vec())
}

fn err(s: &str) -> Value {
    Value::Error(s.as_bytes().to_vec())
}

fn round_trips(v: Value) {
    let bytes = encode(&v);
    match decode(&bytes, 0) {
        Decoded::Complete(w, n) => {
            assert_eq!(w, v);
            assert_eq!(n, bytes.len());
        }
        other => panic!("expected a complete value, got {:?}", other),
    }
}

#[test]
fn encode_echo_example() {
    let v = Value::Array(vec![bulk("ECHO"), bulk("hey")]);
    assert_eq!(encode(&v), b"*2\r\n$4\r\nECHO\r\n$3\r\nhey\r\n".to_vec());
}

#[test]
fn encode_each_variant() {
    assert_eq!(encode(&simple("OK")), b"+OK\r\n".to_vec());
    assert_eq!(encode(&err("ERR boom")), b"-ERR boom\r\n".to_vec());
    assert_eq!(encode(&Value::Integer(42)), b":42\r\n".to_vec());
    assert_eq!(encode(&Value::Integer(-7)), b":-7\r\n".to_vec());
    assert_eq!(encode(&bulk("hey")), b"$3\r\nhey\r\n".to_vec());
    assert_eq!(encode(&Value::Null), b"$-1\r\n".to_vec());
    assert_eq!(encode(&Value::Array(vec![])), b"*0\r\n".to_vec());
}

#[test]
fn round_trip_simple_string() {
    round_trips(simple("PONG"));
    round_trips(simple(""));
}

#[test]
fn round_trip_error() {
    round_trips(err("ERR unknown command"));
}

#[test]
fn round_trip_integer() {
    round_trips(Value::Integer(0));
    round_trips(Value::Integer(42));
    round_trips(Value::Integer(-7));
    round_trips(Value::Integer(i64::MAX));
    round_trips(Value::Integer(i64::MIN));
}

#[test]
fn round_trip_bulk_string() {
    round_trips(bulk("hey"));
    round_trips(bulk(""));
    round_trips(Value::BulkString(b"with\r\nembedded\r\ncrlf".to_vec()));
}

#[test]
fn round_trip_null() {
    round_trips(Value::Null);
}

#[test]
fn round_trip_array() {
    round_trips(Value::Array(vec![]));
    round_trips(Value::Array(vec![bulk("SET"), bulk("k"), Value::Integer(5)]));
    round_trips(Value::Array(vec![
        Value::Array(vec![simple("a"), Value::Null]),
        bulk("tail"),
    ]));
}

#[test]
fn decode_null_forms() {
    assert_eq!(decode(&b"$-1\r\n".to_vec(), 0), Decoded::Complete(Value::Null, 5));
    assert_eq!(decode(&b"*-1\r\n".to_vec(), 0), Decoded::Complete(Value::Null, 5));
}

#[test]
fn decode_integer_forms() {
    assert_eq!(decode(&b":-0\r\n".to_vec(), 0), Decoded::Complete(Value::Integer(0), 5));
    let v = decode(&b":007\r\n".to_vec(), 0);
    assert_eq!(v, Decoded::Complete(Value::Integer(7), 6));
    assert_eq!(
        decode(&b":9223372036854775807\r\n".to_vec(), 0),
        Decoded::Complete(Value::Integer(i64::MAX), 22)
    );
    assert_eq!(
        decode(&b":-9223372036854775808\r\n".to_vec(), 0),
        Decoded::Complete(Value::Integer(i64::MIN), 23)
    );
}

#[test]
fn decode_integer_out_of_range_is_malformed() {
    assert_eq!(decode(&b":9223372036854775808\r\n".to_vec(), 0), Decoded::Malformed);
    assert_eq!(decode(&b":-9223372036854775809\r\n".to_vec(), 0), Decoded::Malformed);
}

#[test]
fn decode_malformed_frames() {
    assert_eq!(decode(&b"?what\r\n".to_vec(), 0), Decoded::Malformed);
    assert_eq!(decode(&b":12a\r\n".to_vec(), 0), Decoded::Malformed);
    assert_eq!(decode(&b":+5\r\n".to_vec(), 0), Decoded::Malformed);
    assert_eq!(decode(&b":\r\n".to_vec(), 0), Decoded::Malformed);
    assert_eq!(decode(&b"$abc\r\n".to_vec(), 0), Decoded::Malformed);
    assert_eq!(decode(&b"$-2\r\n".to_vec(), 0), Decoded::Malformed);
    // payload terminator is not CRLF
    assert_eq!(decode(&b"$3\r\nheyXY".to_vec(), 0), Decoded::Malformed);
    // a lone LF can never complete a header line
    assert_eq!(decode(&b"+hi\nthere\r\n".to_vec(), 0), Decoded::Malformed);
}

#[test]
fn decode_incomplete_frames() {
    assert_eq!(decode(&b"".to_vec(), 0), Decoded::Incomplete);
    assert_eq!(decode(&b"+PON".to_vec(), 0), Decoded::Incomplete);
    assert_eq!(decode(&b"+PONG\r".to_vec(), 0), Decoded::Incomplete);
    assert_eq!(decode(&b"$3\r\nhe".to_vec(), 0), Decoded::Incomplete);
    assert_eq!(decode(&b"*2\r\n:1\r\n".to_vec(), 0), Decoded::Incomplete);
}

#[test]
fn byte_by_byte_arrival_matches_whole_decode() {
    let v = Value::Array(vec![bulk("SET"), bulk("k"), bulk("v\r\nw"), Value::Integer(-12)]);
    let whole = encode(&v);
    let expected = decode(&whole, 0);

    let mut buf: Vec<u8> = Vec::new();
    let mut first_complete: Option<Decoded> = None;
    for &b in &whole {
        buf.push(b);
        match decode(&buf, 0) {
            Decoded::Incomplete => continue,
            done => {
                first_complete = Some(done);
                break;
            }
        }
    }
    // the value completes exactly at the last byte, with the same result
    assert_eq!(buf.len(), whole.len());
    assert_eq!(first_complete.unwrap(), expected);
    assert_eq!(expected, Decoded::Complete(v, whole.len()));
}

#[test]
fn decode_two_pipelined_values() {
    let mut bytes = encode(&simple("one"));
    bytes.extend_from_slice(&encode(&Value::Integer(2)));
    match decode(&bytes, 0) {
        Decoded::Complete(v, n) => {
            assert_eq!(v, simple("one"));
            match decode(&bytes, n) {
                Decoded::Complete(w, m) => {
                    assert_eq!(w, Value::Integer(2));
                    assert_eq!(m, bytes.len());
                }
                other => panic!("expected second value, got {:?}", other),
            }
        }
        other => panic!("expected first value, got {:?}", other),
    }
}

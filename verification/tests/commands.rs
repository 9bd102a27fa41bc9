use redis_starter_rust::{
    decode, dispatch, encode, extract_command, handle_get, handle_incr, handle_set,
    unpack_bulk_str, Decoded, MemoryDb, Server, Value,
};

fn bulk(s: &str) -> Value {
    Value::BulkString(s.as_bytes().to_vec())
}

fn simple(s: &str) -> Value {
    Value::SimpleString(s.as_bytes().to_vec())
}

fn req(parts: &[&str]) -> Value {
    Value::Array(parts.iter().map(|p| bulk(p)).collect())
}

fn is_error(v: &Value) -> bool {
    matches!(v, Value::Error(_))
}

const NOW: u64 = 1_000_000;

#[test]
fn ping_returns_pong() {
    let mut db = MemoryDb::new();
    let reply = dispatch(&mut db, req(&["PING"]), NOW);
    assert_eq!(reply, simple("PONG"));
}

#[test]
fn ping_ignores_trailing_arguments() {
    let mut db = MemoryDb::new();
    let reply = dispatch(&mut db, req(&["PING", "extra", "words"]), NOW);
    assert_eq!(reply, simple("PONG"));
}

#[test]
fn echo_returns_argument() {
    let mut db = MemoryDb::new();
    let reply = dispatch(&mut db, req(&["ECHO", "hey"]), NOW);
    assert_eq!(reply, bulk("hey"));
}

#[test]
fn echo_without_argument_is_an_error_reply() {
    let mut db = MemoryDb::new();
    let reply = dispatch(&mut db, req(&["ECHO"]), NOW);
    assert!(is_error(&reply));
}

#[test]
fn set_then_get_returns_value() {
    let mut db = MemoryDb::new();
    let set_reply = dispatch(&mut db, req(&["SET", "k", "v"]), NOW);
    assert_eq!(set_reply, simple("OK"));
    let get_reply = dispatch(&mut db, req(&["GET", "k"]), NOW + 1);
    assert_eq!(get_reply, bulk("v"));
}

#[test]
fn get_normalizes_stored_integer_to_simple_string() {
    let mut db = MemoryDb::new();
    dispatch(&mut db, req(&["INCR", "n"]), NOW);
    let get_reply = dispatch(&mut db, req(&["GET", "n"]), NOW);
    assert_eq!(get_reply, simple("1"));
}

#[test]
fn get_on_never_set_key_returns_null() {
    let mut db = MemoryDb::new();
    let reply = dispatch(&mut db, req(&["GET", "missing"]), NOW);
    assert_eq!(reply, Value::Null);
}

#[test]
fn set_with_px_zero_expires_after_any_delay() {
    let mut db = MemoryDb::new();
    let reply = dispatch(&mut db, req(&["SET", "k", "v", "PX", "0"]), NOW);
    assert_eq!(reply, simple("OK"));
    let after = dispatch(&mut db, req(&["GET", "k"]), NOW + 5);
    assert_eq!(after, Value::Null);
}

#[test]
fn set_with_px_is_visible_before_the_deadline() {
    let mut db = MemoryDb::new();
    dispatch(&mut db, req(&["SET", "k", "v", "PX", "100"]), NOW);
    assert_eq!(dispatch(&mut db, req(&["GET", "k"]), NOW + 50), bulk("v"));
    assert_eq!(dispatch(&mut db, req(&["GET", "k"]), NOW + 100), Value::Null);
}

#[test]
fn overwriting_drops_the_old_expiry() {
    let mut db = MemoryDb::new();
    dispatch(&mut db, req(&["SET", "k", "v", "PX", "10"]), NOW);
    dispatch(&mut db, req(&["SET", "k", "w"]), NOW + 5);
    assert_eq!(dispatch(&mut db, req(&["GET", "k"]), NOW + 1000), bulk("w"));
}

#[test]
fn set_with_bad_px_leaves_store_untouched() {
    let mut db = MemoryDb::new();
    dispatch(&mut db, req(&["SET", "k", "old"]), NOW);
    let reply = dispatch(&mut db, req(&["SET", "k", "new", "PX", "abc"]), NOW);
    assert!(is_error(&reply));
    assert_eq!(dispatch(&mut db, req(&["GET", "k"]), NOW), bulk("old"));
    let negative = dispatch(&mut db, req(&["SET", "k", "new", "PX", "-1"]), NOW);
    assert!(is_error(&negative));
}

#[test]
fn set_arity_error() {
    let mut db = MemoryDb::new();
    assert!(is_error(&dispatch(&mut db, req(&["SET", "k"]), NOW)));
    assert!(is_error(&dispatch(&mut db, req(&["SET"]), NOW)));
}

#[test]
fn incr_on_fresh_key_returns_one() {
    let mut db = MemoryDb::new();
    let reply = dispatch(&mut db, req(&["INCR", "counter"]), NOW);
    assert_eq!(reply, Value::Integer(1));
    assert_eq!(dispatch(&mut db, req(&["GET", "counter"]), NOW), simple("1"));
}

#[test]
fn incr_on_numeric_text_increments() {
    let mut db = MemoryDb::new();
    dispatch(&mut db, req(&["SET", "k", "10"]), NOW);
    let reply = dispatch(&mut db, req(&["INCR", "k"]), NOW);
    assert_eq!(reply, Value::Integer(11));
}

#[test]
fn incr_on_non_numeric_text_errors_and_leaves_key() {
    let mut db = MemoryDb::new();
    dispatch(&mut db, req(&["SET", "k", "abc"]), NOW);
    let reply = dispatch(&mut db, req(&["INCR", "k"]), NOW);
    assert!(is_error(&reply));
    assert_eq!(dispatch(&mut db, req(&["GET", "k"]), NOW), bulk("abc"));
}

#[test]
fn incr_at_max_errors_and_leaves_key() {
    let mut db = MemoryDb::new();
    let max = i64::MAX.to_string();
    dispatch(&mut db, req(&["SET", "k", &max]), NOW);
    let reply = dispatch(&mut db, req(&["INCR", "k"]), NOW);
    assert!(is_error(&reply));
    assert_eq!(dispatch(&mut db, req(&["GET", "k"]), NOW), bulk(&max));
}

#[test]
fn repeated_incr_counts_every_call() {
    let mut db = MemoryDb::new();
    let n: i64 = 500;
    for i in 1..=n {
        let reply = dispatch(&mut db, req(&["INCR", "hits"]), NOW);
        assert_eq!(reply, Value::Integer(i));
    }
    assert_eq!(dispatch(&mut db, req(&["GET", "hits"]), NOW), simple("500"));
}

#[test]
fn unknown_command_is_an_error_reply() {
    let mut db = MemoryDb::new();
    let reply = dispatch(&mut db, req(&["FLUSHALL"]), NOW);
    assert!(is_error(&reply));
    // lower-case spellings are not recognised either
    assert!(is_error(&dispatch(&mut db, req(&["ping"]), NOW)));
}

#[test]
fn non_command_shapes_draw_protocol_error_replies() {
    let mut db = MemoryDb::new();
    assert!(is_error(&dispatch(&mut db, Value::Integer(3), NOW)));
    assert!(is_error(&dispatch(&mut db, Value::Array(vec![]), NOW)));
    assert!(is_error(&dispatch(
        &mut db,
        Value::Array(vec![Value::Integer(1), bulk("x")]),
        NOW
    )));
}

#[test]
fn extract_command_splits_name_and_args() {
    let (name, args) = extract_command(req(&["SET", "k", "v"])).unwrap();
    assert_eq!(name, b"SET".to_vec());
    assert_eq!(args, vec![bulk("k"), bulk("v")]);
    assert!(extract_command(bulk("SET")).is_err());
    assert!(extract_command(Value::Array(vec![])).is_err());
    assert!(extract_command(Value::Array(vec![Value::Null])).is_err());
}

#[test]
fn unpack_bulk_str_accepts_only_bulk_strings() {
    assert_eq!(unpack_bulk_str(bulk("hey")).unwrap(), b"hey".to_vec());
    assert!(unpack_bulk_str(simple("hey")).is_err());
    assert!(unpack_bulk_str(Value::Integer(1)).is_err());
}

#[test]
fn handlers_work_without_the_dispatcher() {
    let mut db = MemoryDb::new();
    let set_reply = handle_set(&mut db, vec![bulk("k"), bulk("5")], NOW);
    assert_eq!(set_reply, simple("OK"));
    let incr_reply = handle_incr(&mut db, vec![bulk("k")], NOW);
    assert_eq!(incr_reply, Value::Integer(6));
    let get_reply = handle_get(&db, vec![bulk("k")], NOW);
    assert_eq!(get_reply, simple("6"));
}

#[test]
fn store_remove_unbinds() {
    let mut db = MemoryDb::new();
    db.set(b"k".to_vec(), bulk("v"), None);
    assert!(db.get(&b"k".to_vec(), NOW).is_some());
    db.remove(&b"k".to_vec());
    assert!(db.get(&b"k".to_vec(), NOW).is_none());
    // removing again is harmless
    db.remove(&b"k".to_vec());
    assert!(db.get(&b"k".to_vec(), NOW).is_none());
}

#[test]
fn remove_expired_respects_overwrites() {
    let mut db = MemoryDb::new();
    db.set(b"k".to_vec(), bulk("v"), Some(NOW + 10));
    // overwritten before the timer fires: the new binding survives
    db.set(b"k".to_vec(), bulk("w"), None);
    db.remove_expired(&b"k".to_vec(), NOW + 20);
    assert_eq!(db.get(&b"k".to_vec(), NOW + 20), Some(bulk("w")));
    // a binding whose deadline has passed is swept away
    db.set(b"k".to_vec(), bulk("x"), Some(NOW + 30));
    db.remove_expired(&b"k".to_vec(), NOW + 30);
    assert_eq!(db.get(&b"k".to_vec(), NOW + 30), None);
}

#[test]
fn store_keys_lists_bindings() {
    let mut db = MemoryDb::new();
    db.set(b"a".to_vec(), bulk("1"), None);
    db.set(b"b".to_vec(), bulk("2"), Some(NOW));
    let mut keys = db.keys();
    keys.sort();
    assert_eq!(keys, vec![b"a".to_vec(), b"b".to_vec()]);
}

#[test]
fn server_new_keeps_address_and_bindings() {
    let mut db = MemoryDb::new();
    db.set(b"k".to_vec(), bulk("v"), None);
    let server = Server::new("127.0.0.1:6379", &db);
    assert_eq!(server.addr, "127.0.0.1:6379".to_string());
    assert_eq!(server.db.get(&b"k".to_vec(), NOW), Some(bulk("v")));
}

#[test]
fn full_wire_round_trip_of_a_request() {
    let mut db = MemoryDb::new();
    let wire = b"*1\r\n$4\r\nPING\r\n".to_vec();
    match decode(&wire, 0) {
        Decoded::Complete(request, n) => {
            assert_eq!(n, wire.len());
            let reply = dispatch(&mut db, request, NOW);
            assert_eq!(encode(&reply), b"+PONG\r\n".to_vec());
        }
        other => panic!("expected a complete request, got {:?}", other),
    }
}


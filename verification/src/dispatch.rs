//! The command dispatcher: interprets a decoded value as a command and
//! applies it to the store, always answering with a reply value and
//! never failing the connection or the process.

use vstd::prelude::*;
use crate::value::Value;
use crate::value::ValueModel;
use crate::value::models_of;
use crate::value::lemma_models_of;
use crate::codec::enc_int;
use crate::codec::parse_int_i64;
use crate::codec::parse_i64_bytes;
use crate::codec::int_bytes;
use crate::store::MemoryDb;
use crate::store::bytes_eq;

verus! {

broadcast use vstd::std_specs::vec::group_vec_axioms, vstd::seq::group_seq_axioms;

/// Why a request could not be read as a command.
#[derive(Debug, PartialEq, Eq)]
pub enum CmdError {
    /// The request is not a non-empty array.
    UnexpectedFormat,
    /// The element examined is not a bulk string.
    NotBulkString,
}

/// The reply text of a successful `SET`. ("OK")
pub open spec fn msg_ok() -> Seq<u8> {
    seq![79u8, 75]
}

/// Exec bytes of `msg_ok`.
pub fn msg_ok_bytes() -> (r: Vec<u8>)
    ensures
        r@ == msg_ok(),
{
    let r: Vec<u8> = vec![79u8, 75];
    proof {
        assert(r@ =~= msg_ok());
    }
    r
}

/// The reply text of `PING`. ("PONG")
pub open spec fn msg_pong() -> Seq<u8> {
    seq![80u8, 79, 78, 71]
}

/// Exec bytes of `msg_pong`.
pub fn msg_pong_bytes() -> (r: Vec<u8>)
    ensures
        r@ == msg_pong(),
{
    let r: Vec<u8> = vec![80u8, 79, 78, 71];
    proof {
        assert(r@ =~= msg_pong());
    }
    r
}

/// Reply when a request is not an array led by a bulk string. ("ERR invalid request")
pub open spec fn msg_proto() -> Seq<u8> {
    seq![69u8, 82, 82, 32, 105, 110, 118, 97, 108, 105, 100, 32, 114, 101, 113, 117, 101, 115, 116]
}

/// Exec bytes of `msg_proto`.
pub fn msg_proto_bytes() -> (r: Vec<u8>)
    ensures
        r@ == msg_proto(),
{
    let r: Vec<u8> = vec![69u8, 82, 82, 32, 105, 110, 118, 97, 108, 105, 100, 32, 114, 101, 113, 117, 101, 115, 116];
    proof {
        assert(r@ =~= msg_proto());
    }
    r
}

/// Reply when a command lacks a required argument. ("ERR wrong number of arguments")
pub open spec fn msg_arity() -> Seq<u8> {
    seq![69u8, 82, 82, 32, 119, 114, 111, 110, 103, 32, 110, 117, 109, 98, 101, 114, 32, 111, 102, 32, 97, 114, 103, 117, 109, 101, 110, 116, 115]
}

/// Exec bytes of `msg_arity`.
pub fn msg_arity_bytes() -> (r: Vec<u8>)
    ensures
        r@ == msg_arity(),
{
    let r: Vec<u8> = vec![69u8, 82, 82, 32, 119, 114, 111, 110, 103, 32, 110, 117, 109, 98, 101, 114, 32, 111, 102, 32, 97, 114, 103, 117, 109, 101, 110, 116, 115];
    proof {
        assert(r@ =~= msg_arity());
    }
    r
}

/// Reply when the command name is not recognised. ("ERR unknown command")
pub open spec fn msg_unknown() -> Seq<u8> {
    seq![69u8, 82, 82, 32, 117, 110, 107, 110, 111, 119, 110, 32, 99, 111, 109, 109, 97, 110, 100]
}

/// Exec bytes of `msg_unknown`.
pub fn msg_unknown_bytes() -> (r: Vec<u8>)
    ensures
        r@ == msg_unknown(),
{
    let r: Vec<u8> = vec![69u8, 82, 82, 32, 117, 110, 107, 110, 111, 119, 110, 32, 99, 111, 109, 109, 97, 110, 100];
    proof {
        assert(r@ =~= msg_unknown());
    }
    r
}

/// Reply when `INCR` meets a value that is not an integer. ("ERR value is not an integer")
pub open spec fn msg_notint() -> Seq<u8> {
    seq![69u8, 82, 82, 32, 118, 97, 108, 117, 101, 32, 105, 115, 32, 110, 111, 116, 32, 97, 110, 32, 105, 110, 116, 101, 103, 101, 114]
}

/// Exec bytes of `msg_notint`.
pub fn msg_notint_bytes() -> (r: Vec<u8>)
    ensures
        r@ == msg_notint(),
{
    let r: Vec<u8> = vec![69u8, 82, 82, 32, 118, 97, 108, 117, 101, 32, 105, 115, 32, 110, 111, 116, 32, 97, 110, 32, 105, 110, 116, 101, 103, 101, 114];
    proof {
        assert(r@ =~= msg_notint());
    }
    r
}

/// Reply when `INCR` would leave the machine range. ("ERR increment would overflow")
pub open spec fn msg_overflow() -> Seq<u8> {
    seq![69u8, 82, 82, 32, 105, 110, 99, 114, 101, 109, 101, 110, 116, 32, 119, 111, 117, 108, 100, 32, 111, 118, 101, 114, 102, 108, 111, 119]
}

/// Exec bytes of `msg_overflow`.
pub fn msg_overflow_bytes() -> (r: Vec<u8>)
    ensures
        r@ == msg_overflow(),
{
    let r: Vec<u8> = vec![69u8, 82, 82, 32, 105, 110, 99, 114, 101, 109, 101, 110, 116, 32, 119, 111, 117, 108, 100, 32, 111, 118, 101, 114, 102, 108, 111, 119];
    proof {
        assert(r@ =~= msg_overflow());
    }
    r
}

/// Reply when an argument has the wrong shape or spelling. ("ERR syntax error")
pub open spec fn msg_syntax() -> Seq<u8> {
    seq![69u8, 82, 82, 32, 115, 121, 110, 116, 97, 120, 32, 101, 114, 114, 111, 114]
}

/// Exec bytes of `msg_syntax`.
pub fn msg_syntax_bytes() -> (r: Vec<u8>)
    ensures
        r@ == msg_syntax(),
{
    let r: Vec<u8> = vec![69u8, 82, 82, 32, 115, 121, 110, 116, 97, 120, 32, 101, 114, 114, 111, 114];
    proof {
        assert(r@ =~= msg_syntax());
    }
    r
}

/// The `PING` command name. ("PING")
pub open spec fn cmd_ping() -> Seq<u8> {
    seq![80u8, 73, 78, 71]
}

/// Exec bytes of `cmd_ping`.
pub fn cmd_ping_bytes() -> (r: Vec<u8>)
    ensures
        r@ == cmd_ping(),
{
    let r: Vec<u8> = vec![80u8, 73, 78, 71];
    proof {
        assert(r@ =~= cmd_ping());
    }
    r
}

/// The `ECHO` command name. ("ECHO")
pub open spec fn cmd_echo() -> Seq<u8> {
    seq![69u8, 67, 72, 79]
}

/// Exec bytes of `cmd_echo`.
pub fn cmd_echo_bytes() -> (r: Vec<u8>)
    ensures
        r@ == cmd_echo(),
{
    let r: Vec<u8> = vec![69u8, 67, 72, 79];
    proof {
        assert(r@ =~= cmd_echo());
    }
    r
}

/// The `SET` command name. ("SET")
pub open spec fn cmd_set() -> Seq<u8> {
    seq![83u8, 69, 84]
}

/// Exec bytes of `cmd_set`.
pub fn cmd_set_bytes() -> (r: Vec<u8>)
    ensures
        r@ == cmd_set(),
{
    let r: Vec<u8> = vec![83u8, 69, 84];
    proof {
        assert(r@ =~= cmd_set());
    }
    r
}

/// The `GET` command name. ("GET")
pub open spec fn cmd_get() -> Seq<u8> {
    seq![71u8, 69, 84]
}

/// Exec bytes of `cmd_get`.
pub fn cmd_get_bytes() -> (r: Vec<u8>)
    ensures
        r@ == cmd_get(),
{
    let r: Vec<u8> = vec![71u8, 69, 84];
    proof {
        assert(r@ =~= cmd_get());
    }
    r
}

/// The `INCR` command name. ("INCR")
pub open spec fn cmd_incr() -> Seq<u8> {
    seq![73u8, 78, 67, 82]
}

/// Exec bytes of `cmd_incr`.
pub fn cmd_incr_bytes() -> (r: Vec<u8>)
    ensures
        r@ == cmd_incr(),
{
    let r: Vec<u8> = vec![73u8, 78, 67, 82];
    proof {
        assert(r@ =~= cmd_incr());
    }
    r
}

/// The `PX` option token. ("PX")
pub open spec fn px_upper() -> Seq<u8> {
    seq![80u8, 88]
}

/// Exec bytes of `px_upper`.
pub fn px_upper_bytes() -> (r: Vec<u8>)
    ensures
        r@ == px_upper(),
{
    let r: Vec<u8> = vec![80u8, 88];
    proof {
        assert(r@ =~= px_upper());
    }
    r
}

/// The lower-case spelling of the `PX` option token. ("px")
pub open spec fn px_lower() -> Seq<u8> {
    seq![112u8, 120]
}

/// Exec bytes of `px_lower`.
pub fn px_lower_bytes() -> (r: Vec<u8>)
    ensures
        r@ == px_lower(),
{
    let r: Vec<u8> = vec![112u8, 120];
    proof {
        assert(r@ =~= px_lower());
    }
    r
}

/// The command name and arguments carried by a request, when the
/// request is an array whose first element is a bulk string.
pub open spec fn command_of(m: ValueModel) -> Option<(Seq<u8>, Seq<ValueModel>)> {
    match m {
        ValueModel::Array(items) => if items.len() >= 1 {
            match items[0] {
                ValueModel::BulkString(name) => Some(
                    (name, items.subrange(1, items.len() as int)),
                ),
                _ => None,
            }
        } else {
            None
        },
        _ => None,
    }
}

/// Splits a request into its command name and arguments, or reports
/// that it has no command shape.
pub fn extract_command(value: Value) -> (r: Result<(Vec<u8>, Vec<Value>), CmdError>)
    ensures
        match r {
            Ok(p) => command_of(value.model()) == Some((p.0@, models_of(p.1@))),
            Err(_) => command_of(value.model()) is None,
        },
{
    match value {
        Value::Array(items) => {
            if items.len() == 0 {
                return Err(CmdError::UnexpectedFormat);
            }
            let mut rest = items;
            let ghost orig = rest@;
            let first = rest.remove(0);
            proof {
                lemma_models_of(orig);
                lemma_models_of(rest@);
                assert(rest@ =~= orig.subrange(1, orig.len() as int));
                assert(models_of(rest@) =~= models_of(orig).subrange(
                    1,
                    models_of(orig).len() as int,
                ));
            }
            match first {
                Value::BulkString(name) => Ok((name, rest)),
                _ => Err(CmdError::NotBulkString),
            }
        },
        _ => Err(CmdError::UnexpectedFormat),
    }
}

/// The payload of a bulk string, or a report that the value is none.
pub fn unpack_bulk_str(value: Value) -> (r: Result<Vec<u8>, CmdError>)
    ensures
        match r {
            Ok(b) => value.model() == ValueModel::BulkString(b@),
            Err(_) => !(value.model() matches ValueModel::BulkString(_)),
        },
{
    match value {
        Value::BulkString(b) => Ok(b),
        _ => Err(CmdError::NotBulkString),
    }
}

/// How a `SET` argument list reads: a valid binding request, a missing
/// argument, or a malformed option.
pub enum SetRequest {
    Valid(Seq<u8>, ValueModel, Option<int>),
    Arity,
    Syntax,
}

/// Reads `SET` arguments: `key value` or `key value PX milliseconds`,
/// the expiry a non-negative integer.
pub open spec fn set_request(args: Seq<ValueModel>) -> SetRequest {
    if args.len() != 2 && args.len() != 4 {
        SetRequest::Arity
    } else {
        match args[0] {
            ValueModel::BulkString(k) => if args.len() == 2 {
                SetRequest::Valid(k, args[1], None)
            } else {
                match args[2] {
                    ValueModel::BulkString(p) => if p == px_upper() || p == px_lower() {
                        match args[3] {
                            ValueModel::BulkString(ms) => match parse_int_i64(ms) {
                                Some(t) => if t >= 0 {
                                    SetRequest::Valid(k, args[1], Some(t))
                                } else {
                                    SetRequest::Syntax
                                },
                                None => SetRequest::Syntax,
                            },
                            _ => SetRequest::Syntax,
                        }
                    } else {
                        SetRequest::Syntax
                    },
                    _ => SetRequest::Syntax,
                }
            },
            _ => SetRequest::Syntax,
        }
    }
}

/// The instant at which a binding made now with time-to-live `t`
/// milliseconds lapses, clamped to the machine range.
pub open spec fn deadline(now_ms: u64, t: int) -> u64 {
    if now_ms + t > u64::MAX {
        u64::MAX
    } else {
        (now_ms + t) as u64
    }
}

/// What `SET` does: on a valid request the key is bound to the value
/// with the requested expiry and everything else is untouched; on a
/// malformed one the store is untouched and an error is the reply.
pub open spec fn set_post(
    pre: MemoryDb,
    post: MemoryDb,
    args: Seq<ValueModel>,
    now_ms: u64,
    reply: ValueModel,
) -> bool {
    match set_request(args) {
        SetRequest::Valid(k, v, px) => {
            &&& post.lookup(k) == Some(
                (
                    v,
                    match px {
                        Some(t) => Some(deadline(now_ms, t)),
                        None => None::<u64>,
                    },
                ),
            )
            &&& forall|k2: Seq<u8>| k2 != k ==> post.lookup(k2) == pre.lookup(k2)
            &&& reply == ValueModel::SimpleString(msg_ok())
        },
        SetRequest::Arity => post == pre && reply == ValueModel::Error(msg_arity()),
        SetRequest::Syntax => post == pre && reply == ValueModel::Error(msg_syntax()),
    }
}

/// What `GET` replies: the live value for the key (an integer rendered
/// as its decimal simple-string form), `Null` when absent or lapsed,
/// and an error for a malformed argument list.
pub open spec fn get_post(
    db: MemoryDb,
    args: Seq<ValueModel>,
    now_ms: u64,
    reply: ValueModel,
) -> bool {
    if args.len() < 1 {
        reply == ValueModel::Error(msg_arity())
    } else {
        match args[0] {
            ValueModel::BulkString(k) => match db.live_at(k, now_ms) {
                None => reply == ValueModel::Null,
                Some(m) => match m {
                    ValueModel::Integer(i) => reply == ValueModel::SimpleString(enc_int(i)),
                    _ => reply == m,
                },
            },
            _ => reply == ValueModel::Error(msg_syntax()),
        }
    }
}

/// The integer a stored value denotes: a wire integer as itself, a
/// simple or bulk string by its decimal text, nothing otherwise.
pub open spec fn as_int(m: ValueModel) -> Option<int> {
    match m {
        ValueModel::Integer(i) => Some(i),
        ValueModel::SimpleString(s) => parse_int_i64(s),
        ValueModel::BulkString(s) => parse_int_i64(s),
        _ => None,
    }
}

/// What `INCR` does: an absent or lapsed key becomes `1`; a numeric
/// value is replaced by its successor and loses any expiry; anything
/// else leaves the store untouched and draws an error reply.
pub open spec fn incr_post(
    pre: MemoryDb,
    post: MemoryDb,
    args: Seq<ValueModel>,
    now_ms: u64,
    reply: ValueModel,
) -> bool {
    if args.len() < 1 {
        post == pre && reply == ValueModel::Error(msg_arity())
    } else {
        match args[0] {
            ValueModel::BulkString(k) => match pre.live_at(k, now_ms) {
                None => {
                    &&& post.lookup(k) == Some((ValueModel::Integer(1), None::<u64>))
                    &&& forall|k2: Seq<u8>| k2 != k ==> post.lookup(k2) == pre.lookup(k2)
                    &&& reply == ValueModel::Integer(1)
                },
                Some(m) => match as_int(m) {
                    None => post == pre && reply == ValueModel::Error(msg_notint()),
                    Some(i) => if i == i64::MAX {
                        post == pre && reply == ValueModel::Error(msg_overflow())
                    } else {
                        &&& post.lookup(k) == Some((ValueModel::Integer(i + 1), None::<u64>))
                        &&& forall|k2: Seq<u8>| k2 != k ==> post.lookup(k2) == pre.lookup(k2)
                        &&& reply == ValueModel::Integer(i + 1)
                    },
                },
            },
            _ => post == pre && reply == ValueModel::Error(msg_syntax()),
        }
    }
}

/// Applies a `SET` command to the store.
pub fn handle_set(db: &mut MemoryDb, args: Vec<Value>, now_ms: u64) -> (r: Value)
    requires
        old(db).wf(),
    ensures
        final(db).wf(),
        set_post(*old(db), *final(db), models_of(args@), now_ms, r.model()),
{
    let ghost ams = models_of(args@);
    proof {
        lemma_models_of(args@);
    }
    let n = args.len();
    if n != 2 && n != 4 {
        return Value::Error(msg_arity_bytes());
    }
    let mut rest = args;
    let expiry: Option<u64> = if n == 4 {
        let okpx = match &rest[2] {
            Value::BulkString(p) => {
                let up = px_upper_bytes();
                let lo = px_lower_bytes();
                bytes_eq(p, &up) || bytes_eq(p, &lo)
            },
            _ => false,
        };
        if !okpx {
            return Value::Error(msg_syntax_bytes());
        }
        let t = match &rest[3] {
            Value::BulkString(ms) => parse_i64_bytes(ms),
            _ => None,
        };
        match t {
            None => {
                return Value::Error(msg_syntax_bytes());
            },
            Some(t) => {
                if t < 0 {
                    return Value::Error(msg_syntax_bytes());
                }
                let tu = t as u64;
                if tu > u64::MAX - now_ms {
                    Some(u64::MAX)
                } else {
                    Some(now_ms + tu)
                }
            },
        }
    } else {
        None
    };
    let v = rest.remove(1);
    let kv = rest.remove(0);
    match kv {
        Value::BulkString(k) => {
            db.set(k, v, expiry);
            Value::SimpleString(msg_ok_bytes())
        },
        _ => Value::Error(msg_syntax_bytes()),
    }
}

/// Applies a `GET` command to the store.
pub fn handle_get(db: &MemoryDb, args: Vec<Value>, now_ms: u64) -> (r: Value)
    ensures
        get_post(*db, models_of(args@), now_ms, r.model()),
{
    proof {
        lemma_models_of(args@);
    }
    if args.len() < 1 {
        return Value::Error(msg_arity_bytes());
    }
    match &args[0] {
        Value::BulkString(k) => match db.get(k, now_ms) {
            None => Value::Null,
            Some(v) => match v {
                Value::Integer(i) => Value::SimpleString(int_bytes(i)),
                other => other,
            },
        },
        _ => Value::Error(msg_syntax_bytes()),
    }
}

/// Applies an `INCR` command to the store.
pub fn handle_incr(db: &mut MemoryDb, args: Vec<Value>, now_ms: u64) -> (r: Value)
    requires
        old(db).wf(),
    ensures
        final(db).wf(),
        incr_post(*old(db), *final(db), models_of(args@), now_ms, r.model()),
{
    proof {
        lemma_models_of(args@);
    }
    if args.len() < 1 {
        return Value::Error(msg_arity_bytes());
    }
    match &args[0] {
        Value::BulkString(k) => {
            let current = db.get(k, now_ms);
            match current {
                None => {
                    let key = k.clone();
                    proof {
                        assert(key@ =~= k@);
                    }
                    db.set(key, Value::Integer(1), None);
                    Value::Integer(1)
                },
                Some(v) => {
                    let parsed: Option<i64> = match &v {
                        Value::Integer(i) => Some(*i),
                        Value::SimpleString(s) => parse_i64_bytes(s),
                        Value::BulkString(s) => parse_i64_bytes(s),
                        _ => None,
                    };
                    match parsed {
                        None => Value::Error(msg_notint_bytes()),
                        Some(i) => {
                            if i == i64::MAX {
                                Value::Error(msg_overflow_bytes())
                            } else {
                                let key = k.clone();
                                proof {
                                    assert(key@ =~= k@);
                                }
                                db.set(key, Value::Integer(i + 1), None);
                                Value::Integer(i + 1)
                            }
                        },
                    }
                },
            }
        },
        _ => Value::Error(msg_syntax_bytes()),
    }
}

/// What one dispatched request does to the store and replies.
pub open spec fn dispatch_post(
    pre: MemoryDb,
    post: MemoryDb,
    req: ValueModel,
    now_ms: u64,
    reply: ValueModel,
) -> bool {
    match command_of(req) {
        None => post == pre && reply == ValueModel::Error(msg_proto()),
        Some((name, args)) => if name == cmd_ping() {
            post == pre && reply == ValueModel::SimpleString(msg_pong())
        } else if name == cmd_echo() {
            if args.len() >= 1 {
                post == pre && reply == args[0]
            } else {
                post == pre && reply == ValueModel::Error(msg_arity())
            }
        } else if name == cmd_set() {
            set_post(pre, post, args, now_ms, reply)
        } else if name == cmd_get() {
            post == pre && get_post(pre, args, now_ms, reply)
        } else if name == cmd_incr() {
            incr_post(pre, post, args, now_ms, reply)
        } else {
            post == pre && reply == ValueModel::Error(msg_unknown())
        },
    }
}

/// Interprets one decoded request against the store and produces the
/// reply to send. A malformed or unknown command draws an error reply,
/// never a failure.
pub fn dispatch(db: &mut MemoryDb, request: Value, now_ms: u64) -> (r: Value)
    requires
        old(db).wf(),
    ensures
        final(db).wf(),
        dispatch_post(*old(db), *final(db), request.model(), now_ms, r.model()),
{
    let parts = extract_command(request);
    match parts {
        Err(_) => Value::Error(msg_proto_bytes()),
        Ok((name, args)) => {
            let ping = cmd_ping_bytes();
            let echo = cmd_echo_bytes();
            let set = cmd_set_bytes();
            let get = cmd_get_bytes();
            let incr = cmd_incr_bytes();
            if bytes_eq(&name, &ping) {
                Value::SimpleString(msg_pong_bytes())
            } else if bytes_eq(&name, &echo) {
                proof {
                    lemma_models_of(args@);
                }
                if args.len() >= 1 {
                    let mut rest = args;
                    rest.remove(0)
                } else {
                    Value::Error(msg_arity_bytes())
                }
            } else if bytes_eq(&name, &set) {
                handle_set(db, args, now_ms)
            } else if bytes_eq(&name, &get) {
                handle_get(db, args, now_ms)
            } else if bytes_eq(&name, &incr) {
                handle_incr(db, args, now_ms)
            } else {
                Value::Error(msg_unknown_bytes())
            }
        },
    }
}

/// Binding a key and then reading it yields the bound value back, an
/// integer rendered as its decimal simple-string form, as long as no
/// expiry was requested.
pub proof fn lemma_set_then_get(
    pre: MemoryDb,
    mid: MemoryDb,
    args: Seq<ValueModel>,
    now1: u64,
    now2: u64,
    sreply: ValueModel,
    greply: ValueModel,
    k: Seq<u8>,
    v: ValueModel,
)
    requires
        set_request(args) == SetRequest::Valid(k, v, None::<int>),
        set_post(pre, mid, args, now1, sreply),
        get_post(mid, seq![ValueModel::BulkString(k)], now2, greply),
    ensures
        sreply == ValueModel::SimpleString(msg_ok()),
        greply == (match v {
            ValueModel::Integer(i) => ValueModel::SimpleString(enc_int(i)),
            _ => v,
        }),
{
    assert(mid.lookup(k) == Some((v, None::<u64>)));
    assert(mid.live_at(k, now2) == Some(v));
}

/// A binding made with a time-to-live is gone from sight once that
/// time has elapsed: any read at or past the deadline sees nothing.
pub proof fn lemma_set_px_then_get(
    pre: MemoryDb,
    mid: MemoryDb,
    args: Seq<ValueModel>,
    now1: u64,
    now2: u64,
    sreply: ValueModel,
    greply: ValueModel,
    k: Seq<u8>,
    v: ValueModel,
    t: int,
)
    requires
        set_request(args) == SetRequest::Valid(k, v, Some(t)),
        set_post(pre, mid, args, now1, sreply),
        now1 + t <= u64::MAX,
        now2 >= now1 + t,
        get_post(mid, seq![ValueModel::BulkString(k)], now2, greply),
    ensures
        mid.live_at(k, now2) is None,
        greply == ValueModel::Null,
{
    assert(deadline(now1, t) == (now1 + t) as u64);
    assert(mid.lookup(k) == Some((v, Some(deadline(now1, t)))));
}

/// Reading a key that was never bound yields the null value.
pub proof fn lemma_get_unset(
    db: MemoryDb,
    k: Seq<u8>,
    now_ms: u64,
    greply: ValueModel,
)
    requires
        db.lookup(k) is None,
        get_post(db, seq![ValueModel::BulkString(k)], now_ms, greply),
    ensures
        greply == ValueModel::Null,
{
}

/// Incrementing a key that holds nothing visible binds it to one and
/// replies one; a read afterwards sees that one.
pub proof fn lemma_incr_fresh(
    pre: MemoryDb,
    post: MemoryDb,
    now1: u64,
    now2: u64,
    k: Seq<u8>,
    ireply: ValueModel,
    greply: ValueModel,
)
    requires
        pre.live_at(k, now1) is None,
        incr_post(pre, post, seq![ValueModel::BulkString(k)], now1, ireply),
        get_post(post, seq![ValueModel::BulkString(k)], now2, greply),
    ensures
        ireply == ValueModel::Integer(1),
        greply == ValueModel::SimpleString(enc_int(1)),
{
    assert(post.lookup(k) == Some((ValueModel::Integer(1), None::<u64>)));
    assert(post.live_at(k, now2) == Some(ValueModel::Integer(1)));
}

/// Incrementing a key whose visible value denotes `i` (below the
/// machine maximum) replaces it by `i + 1`, drops any expiry, and
/// replies `i + 1`: each increment adds exactly one.
pub proof fn lemma_incr_numeric(
    pre: MemoryDb,
    post: MemoryDb,
    now_ms: u64,
    k: Seq<u8>,
    m: ValueModel,
    i: int,
    ireply: ValueModel,
)
    requires
        pre.live_at(k, now_ms) == Some(m),
        as_int(m) == Some(i),
        i < i64::MAX,
        incr_post(pre, post, seq![ValueModel::BulkString(k)], now_ms, ireply),
    ensures
        ireply == ValueModel::Integer(i + 1),
        post.lookup(k) == Some((ValueModel::Integer(i + 1), None::<u64>)),
        forall|k2: Seq<u8>| k2 != k ==> post.lookup(k2) == pre.lookup(k2),
{
}

/// Incrementing a key whose visible value denotes no integer leaves
/// the whole store untouched and replies with an error.
pub proof fn lemma_incr_non_numeric(
    pre: MemoryDb,
    post: MemoryDb,
    now_ms: u64,
    k: Seq<u8>,
    m: ValueModel,
    ireply: ValueModel,
)
    requires
        pre.live_at(k, now_ms) == Some(m),
        as_int(m) is None,
        incr_post(pre, post, seq![ValueModel::BulkString(k)], now_ms, ireply),
    ensures
        ireply == ValueModel::Error(msg_notint()),
        post == pre,
{
}

/// `PING` answers `PONG` and touches nothing, whatever arguments
/// trail it.
pub proof fn lemma_ping(
    pre: MemoryDb,
    post: MemoryDb,
    req: ValueModel,
    now_ms: u64,
    reply: ValueModel,
)
    requires
        command_of(req) matches Some(p) && p.0 == cmd_ping(),
        dispatch_post(pre, post, req, now_ms, reply),
    ensures
        reply == ValueModel::SimpleString(msg_pong()),
        post == pre,
{
}

} // verus!

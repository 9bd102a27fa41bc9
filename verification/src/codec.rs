//! The wire codec: the grammar of the protocol as spec functions over byte
//! sequences, an encoder, and an incremental decoder.
//!
//! Each value is framed by a one-byte type prefix and CRLF-terminated
//! headers: `+text`, `-text`, `:integer`, `$len` followed by a payload,
//! `*count` followed by that many values. `$-1` and `*-1` stand for the
//! null value.

use vstd::prelude::*;
use crate::value::Value;
use crate::value::ValueModel;
use crate::value::models_of;
use crate::value::lemma_models_of;

verus! {

broadcast use vstd::std_specs::vec::group_vec_axioms, vstd::seq::group_seq_axioms;

pub const CR: u8 = 13;
pub const LF: u8 = 10;

/// An ASCII decimal digit.
pub open spec fn is_digit(b: u8) -> bool {
    48 <= b <= 57
}

/// Every byte of `s` is a decimal digit.
pub open spec fn all_digits(s: Seq<u8>) -> bool {
    forall|i: int| 0 <= i < s.len() ==> is_digit(s[i])
}

/// The decimal digits of `n`, most significant first.
pub open spec fn dec_digits(n: nat) -> Seq<u8>
    decreases n,
{
    if n < 10 {
        seq![(48 + n) as u8]
    } else {
        dec_digits(n / 10) + seq![(48 + n % 10) as u8]
    }
}

/// The number denoted by a digit string (0 for the empty string).
pub open spec fn dec_val(s: Seq<u8>) -> int
    decreases s.len(),
{
    if s.len() == 0 {
        0
    } else {
        dec_val(s.drop_last()) * 10 + (s.last() - 48)
    }
}

/// A signed decimal token: an optional minus sign followed by at least
/// one digit. Leading zeros are tolerated.
pub open spec fn parse_int(s: Seq<u8>) -> Option<int> {
    if s.len() >= 1 && s[0] == 45 {
        let digits = s.subrange(1, s.len() as int);
        if digits.len() >= 1 && all_digits(digits) {
            Some(-dec_val(digits))
        } else {
            None
        }
    } else if s.len() >= 1 && all_digits(s) {
        Some(dec_val(s))
    } else {
        None
    }
}

/// `parse_int` restricted to the machine-representable range.
pub open spec fn parse_int_i64(s: Seq<u8>) -> Option<int> {
    match parse_int(s) {
        Some(v) => if i64::MIN <= v <= i64::MAX {
            Some(v)
        } else {
            None
        },
        None => None,
    }
}

/// The canonical signed decimal form of `i`.
pub open spec fn enc_int(i: int) -> Seq<u8> {
    if i >= 0 {
        dec_digits(i as nat)
    } else {
        seq![45u8] + dec_digits((-i) as nat)
    }
}

/// Digit strings denote non-negative numbers.
pub proof fn lemma_dec_val_nonneg(s: Seq<u8>)
    requires
        all_digits(s),
    ensures
        dec_val(s) >= 0,
    decreases s.len(),
{
    if s.len() > 0 {
        lemma_dec_val_nonneg(s.drop_last());
    }
}

/// The digits of `n` are digits, start non-empty, and denote `n`.
pub proof fn lemma_dec_digits(n: nat)
    ensures
        dec_digits(n).len() >= 1,
        all_digits(dec_digits(n)),
        dec_val(dec_digits(n)) == n,
    decreases n,
{
    if n < 10 {
        let d = seq![(48 + n) as u8];
        assert(d.drop_last() =~= Seq::<u8>::empty());
        assert(dec_val(d.drop_last()) == 0);
        assert(d.last() == (48 + n) as u8);
        assert(dec_val(d) == dec_val(d.drop_last()) * 10 + (d.last() - 48));
        assert(dec_val(d) == n);
    } else {
        lemma_dec_digits(n / 10);
        let a = dec_digits(n / 10);
        let whole = a + seq![(48 + n % 10) as u8];
        assert(whole.drop_last() =~= a);
        assert(dec_val(whole) == dec_val(a) * 10 + n % 10);
    }
}

/// Growing a digit string multiplies its value by ten and adds the digit.
pub proof fn lemma_dec_val_snoc(s: Seq<u8>, b: u8)
    ensures
        dec_val(s.push(b)) == dec_val(s) * 10 + (b - 48),
{
    assert(s.push(b).drop_last() =~= s);
    assert(s.push(b).last() == b);
}

/// The index of the first CR or LF byte at or after `i`, if any.
pub open spec fn find_crlf(b: Seq<u8>, i: int) -> Option<int>
    decreases b.len() - i,
{
    if i < 0 || i >= b.len() {
        None
    } else if b[i] == CR || b[i] == LF {
        Some(i)
    } else {
        find_crlf(b, i + 1)
    }
}

/// What `find_crlf` returns: the first terminator byte, with nothing
/// CR- or LF-like before it.
pub proof fn lemma_find_crlf(b: Seq<u8>, i: int)
    requires
        0 <= i,
    ensures
        match find_crlf(b, i) {
            Some(j) => {
                &&& i <= j < b.len()
                &&& (b[j] == CR || b[j] == LF)
                &&& forall|k: int| i <= k < j ==> b[k] != CR && b[k] != LF
            },
            None => forall|k: int| i <= k < b.len() ==> b[k] != CR && b[k] != LF,
        },
    decreases b.len() - i,
{
    if 0 <= i < b.len() && b[i] != CR && b[i] != LF {
        lemma_find_crlf(b, i + 1);
    }
}

/// `find_crlf` is unchanged when bytes are appended to the buffer,
/// as long as it already found a terminator.
pub proof fn lemma_find_crlf_extend(b: Seq<u8>, c: Seq<u8>, i: int)
    requires
        b.len() <= c.len(),
        forall|k: int| 0 <= k < b.len() ==> b[k] == c[k],
        find_crlf(b, i) is Some,
    ensures
        find_crlf(c, i) == find_crlf(b, i),
    decreases b.len() - i,
{
    if 0 <= i < b.len() && b[i] != CR && b[i] != LF {
        lemma_find_crlf_extend(b, c, i + 1);
    }
}

/// If the bytes from `i` up to `j` are free of CR and LF and `b[j]` is a
/// terminator, the scan finds exactly `j`.
pub proof fn lemma_find_crlf_at(b: Seq<u8>, i: int, j: int)
    requires
        0 <= i <= j < b.len(),
        b[j] == CR || b[j] == LF,
        forall|k: int| i <= k < j ==> b[k] != CR && b[k] != LF,
    ensures
        find_crlf(b, i) == Some(j),
    decreases j - i,
{
    if i < j {
        lemma_find_crlf_at(b, i + 1, j);
    }
}

/// Where a CRLF-terminated header line ends.
pub enum LineEnd {
    /// The content runs up to this index, where CRLF follows.
    At(int),
    /// No terminator yet: more bytes are needed.
    Missing,
    /// A stray CR or LF: the line can never be completed.
    Broken,
}

/// Locates the CRLF that ends the header line starting at `from`.
pub open spec fn line_end(b: Seq<u8>, from: int) -> LineEnd {
    match find_crlf(b, from) {
        None => LineEnd::Missing,
        Some(i) => if b[i] == LF {
            LineEnd::Broken
        } else if i + 1 >= b.len() {
            LineEnd::Missing
        } else if b[i + 1] == LF {
            LineEnd::At(i)
        } else {
            LineEnd::Broken
        },
    }
}

/// A byte string with no embedded CR or LF, fit for a header line.
pub open spec fn line_ok(s: Seq<u8>) -> bool {
    forall|i: int| 0 <= i < s.len() ==> s[i] != CR && s[i] != LF
}

/// A model the encoder can frame so that decoding recovers it exactly:
/// simple strings and errors carry no CR/LF, integers and lengths fit
/// the machine range.
pub open spec fn wf_model(m: ValueModel) -> bool
    decreases m,
{
    match m {
        ValueModel::SimpleString(s) => line_ok(s),
        ValueModel::Error(s) => line_ok(s),
        ValueModel::Integer(i) => i64::MIN <= i <= i64::MAX,
        ValueModel::BulkString(s) => s.len() <= i64::MAX,
        ValueModel::Null => true,
        ValueModel::Array(items) => items.len() <= i64::MAX && wf_items(items),
    }
}

/// Every element of `items` is well formed.
pub open spec fn wf_items(items: Seq<ValueModel>) -> bool
    decreases items,
{
    if items.len() == 0 {
        true
    } else {
        wf_model(items[0]) && wf_items(items.subrange(1, items.len() as int))
    }
}

/// `wf_items` holds exactly when each element is well formed.
pub proof fn lemma_wf_items(items: Seq<ValueModel>)
    ensures
        wf_items(items) <==> (forall|i: int| 0 <= i < items.len() ==> wf_model(#[trigger] items[i])),
    decreases items.len(),
{
    if items.len() > 0 {
        let rest = items.subrange(1, items.len() as int);
        lemma_wf_items(rest);
        assert(forall|i: int| 0 <= i < rest.len() ==> rest[i] == items[i + 1]);
        if wf_items(items) {
            assert forall|i: int| 0 <= i < items.len() implies wf_model(#[trigger] items[i]) by {
                if i > 0 {
                    assert(items[i] == rest[i - 1]);
                }
            }
        }
        if forall|i: int| 0 <= i < items.len() ==> wf_model(#[trigger] items[i]) {
            assert(wf_model(items[0]));
            assert(forall|i: int| 0 <= i < rest.len() ==> wf_model(#[trigger] rest[i]));
            assert(wf_items(rest));
        }
    }
}

/// The canonical wire bytes of a model value.
pub open spec fn encode_bytes(m: ValueModel) -> Seq<u8>
    decreases m,
{
    match m {
        ValueModel::SimpleString(s) => seq![43u8] + s + seq![CR, LF],
        ValueModel::Error(s) => seq![45u8] + s + seq![CR, LF],
        ValueModel::Integer(i) => seq![58u8] + enc_int(i) + seq![CR, LF],
        ValueModel::BulkString(s) => seq![36u8] + enc_int(s.len() as int) + seq![CR, LF] + s
            + seq![CR, LF],
        ValueModel::Null => seq![36u8, 45u8, 49u8, CR, LF],
        ValueModel::Array(items) => seq![42u8] + enc_int(items.len() as int) + seq![CR, LF]
            + encode_items(items, 0),
    }
}

/// The concatenated wire bytes of `items[k..]`.
pub open spec fn encode_items(items: Seq<ValueModel>, k: int) -> Seq<u8>
    decreases items, items.len() - k,
{
    if k < 0 || k >= items.len() {
        Seq::empty()
    } else {
        encode_bytes(items[k]) + encode_items(items, k + 1)
    }
}

/// Appends the decimal digits of `n` to `out`.
fn push_digits(n: u64, out: &mut Vec<u8>)
    ensures
        final(out)@ == old(out)@ + dec_digits(n as nat),
    decreases n,
{
    if n >= 10 {
        push_digits(n / 10, out);
    }
    out.push((n % 10) as u8 + 48);
    proof {
        assert(out@ =~= old(out)@ + dec_digits(n as nat));
    }
}

/// Appends the canonical signed decimal form of `i` to `out`.
fn push_int(i: i64, out: &mut Vec<u8>)
    ensures
        final(out)@ == old(out)@ + enc_int(i as int),
{
    if i >= 0 {
        push_digits(i as u64, out);
    } else {
        out.push(45);
        let m: u64 = ((-(i + 1)) as u64) + 1;
        assert(m as nat == -(i as int));
        push_digits(m, out);
        proof {
            assert(out@ =~= old(out)@ + enc_int(i as int));
        }
    }
}

/// Appends the bytes of `s` to `out`.
fn push_bytes(s: &Vec<u8>, out: &mut Vec<u8>)
    ensures
        final(out)@ == old(out)@ + s@,
{
    let n = s.len();
    let mut k: usize = 0;
    while k < n
        invariant
            n == s@.len(),
            k <= n,
            out@ == old(out)@ + s@.subrange(0, k as int),
        decreases n - k,
    {
        out.push(s[k]);
        proof {
            assert(out@ =~= old(out)@ + s@.subrange(0, k as int + 1));
        }
        k = k + 1;
    }
    proof {
        assert(s@.subrange(0, n as int) =~= s@);
    }
}

/// Appends the wire encoding of `v` to `out`.
fn encode_into(v: &Value, out: &mut Vec<u8>)
    ensures
        final(out)@ == old(out)@ + encode_bytes(v.model()),
    decreases *v,
{
    match v {
        Value::SimpleString(s) => {
            out.push(43);
            push_bytes(s, out);
            out.push(CR);
            out.push(LF);
            proof {
                assert(out@ =~= old(out)@ + encode_bytes(v.model()));
            }
        },
        Value::Error(s) => {
            out.push(45);
            push_bytes(s, out);
            out.push(CR);
            out.push(LF);
            proof {
                assert(out@ =~= old(out)@ + encode_bytes(v.model()));
            }
        },
        Value::Integer(i) => {
            out.push(58);
            push_int(*i, out);
            out.push(CR);
            out.push(LF);
            proof {
                assert(out@ =~= old(out)@ + encode_bytes(v.model()));
            }
        },
        Value::BulkString(s) => {
            out.push(36);
            let len = s.len();
            push_digits(len as u64, out);
            assert(enc_int(s@.len() as int) == dec_digits(s@.len() as nat));
            out.push(CR);
            out.push(LF);
            push_bytes(s, out);
            out.push(CR);
            out.push(LF);
            proof {
                assert(out@ =~= old(out)@ + encode_bytes(v.model()));
            }
        },
        Value::Null => {
            out.push(36);
            out.push(45);
            out.push(49);
            out.push(CR);
            out.push(LF);
            proof {
                assert(out@ =~= old(out)@ + encode_bytes(v.model()));
            }
        },
        Value::Array(items) => {
            out.push(42);
            let count = items.len();
            push_digits(count as u64, out);
            assert(enc_int(items@.len() as int) == dec_digits(items@.len() as nat));
            out.push(CR);
            out.push(LF);
            let ghost ms = models_of(items@);
            let ghost header = old(out)@ + seq![42u8] + enc_int(items@.len() as int) + seq![
                CR,
                LF,
            ];
            proof {
                lemma_models_of(items@);
                assert(out@ =~= header);
            }
            let n = items.len();
            let mut k: usize = 0;
            let ghost mut done: Seq<u8> = Seq::empty();
            proof {
                assert(done + encode_items(ms, 0) =~= encode_items(ms, 0));
            }
            while k < n
                invariant
                    *v == Value::Array(*items),
                    ms == models_of(items@),
                    ms.len() == items@.len(),
                    forall|j: int| 0 <= j < items@.len() ==> #[trigger] ms[j] == items@[j].model(),
                    n == items@.len(),
                    k <= n,
                    out@ == header + done,
                    done + encode_items(ms, k as int) == encode_items(ms, 0),
                decreases n - k,
            {
                proof {
                    assert(decreases_to!(*v => (*v)->Array_0));
                }
                encode_into(&items[k], out);
                proof {
                    assert(encode_items(ms, k as int) == encode_bytes(ms[k as int]) + encode_items(
                        ms,
                        k as int + 1,
                    ));
                    done = done + encode_bytes(ms[k as int]);
                    assert(done + encode_items(ms, k as int + 1) =~= encode_items(ms, 0));
                    assert(out@ =~= header + done);
                }
                k = k + 1;
            }
            proof {
                assert(done + encode_items(ms, n as int) =~= done);
                assert(out@ =~= old(out)@ + encode_bytes(v.model()));
            }
        },
    }
}

/// The wire encoding of `v`: its canonical framed byte form.
pub fn encode(v: &Value) -> (r: Vec<u8>)
    ensures
        r@ == encode_bytes(v.model()),
{
    let mut out: Vec<u8> = Vec::new();
    encode_into(v, &mut out);
    out
}

/// The outcome of parsing one value at a position in the buffer.
pub enum ParseResult {
    /// The parsed model and the index just past its final byte.
    Complete(ValueModel, int),
    /// The buffer holds a proper prefix of a value: more bytes are needed.
    Incomplete,
    /// The bytes can never grow into a value: the frame is broken.
    Malformed,
}

/// The outcome of parsing a run of consecutive values.
pub enum ItemsResult {
    Complete(Seq<ValueModel>, int),
    Incomplete,
    Malformed,
}

/// Recursive-descent grammar of one value at `pos`: dispatch on the
/// prefix byte, read the CRLF-terminated header, then the payload or the
/// element run.
pub open spec fn parse_value(b: Seq<u8>, pos: int) -> ParseResult
    decreases b.len() - pos, 1int, 0int,
{
    if pos < 0 || pos >= b.len() {
        ParseResult::Incomplete
    } else {
        let t = b[pos];
        if t == 43 || t == 45 {
            match line_end(b, pos + 1) {
                LineEnd::Missing => ParseResult::Incomplete,
                LineEnd::Broken => ParseResult::Malformed,
                LineEnd::At(i) => {
                    let content = b.subrange(pos + 1, i);
                    if t == 43 {
                        ParseResult::Complete(ValueModel::SimpleString(content), i + 2)
                    } else {
                        ParseResult::Complete(ValueModel::Error(content), i + 2)
                    }
                },
            }
        } else if t == 58 {
            match line_end(b, pos + 1) {
                LineEnd::Missing => ParseResult::Incomplete,
                LineEnd::Broken => ParseResult::Malformed,
                LineEnd::At(i) => match parse_int_i64(b.subrange(pos + 1, i)) {
                    Some(v) => ParseResult::Complete(ValueModel::Integer(v), i + 2),
                    None => ParseResult::Malformed,
                },
            }
        } else if t == 36 {
            match line_end(b, pos + 1) {
                LineEnd::Missing => ParseResult::Incomplete,
                LineEnd::Broken => ParseResult::Malformed,
                LineEnd::At(i) => match parse_int_i64(b.subrange(pos + 1, i)) {
                    None => ParseResult::Malformed,
                    Some(n) => if n == -1 {
                        ParseResult::Complete(ValueModel::Null, i + 2)
                    } else if n < 0 {
                        ParseResult::Malformed
                    } else if b.len() < i + 2 + n + 2 {
                        ParseResult::Incomplete
                    } else if b[i + 2 + n] == CR && b[i + 2 + n + 1] == LF {
                        ParseResult::Complete(
                            ValueModel::BulkString(b.subrange(i + 2, i + 2 + n)),
                            i + 2 + n + 2,
                        )
                    } else {
                        ParseResult::Malformed
                    },
                },
            }
        } else if t == 42 {
            match line_end(b, pos + 1) {
                LineEnd::Missing => ParseResult::Incomplete,
                LineEnd::Broken => ParseResult::Malformed,
                LineEnd::At(i) => match parse_int_i64(b.subrange(pos + 1, i)) {
                    None => ParseResult::Malformed,
                    Some(n) => if n == -1 {
                        ParseResult::Complete(ValueModel::Null, i + 2)
                    } else if n < 0 {
                        ParseResult::Malformed
                    } else if i + 2 <= pos || i + 2 > b.len() {
                        // never reached: a found line end lies past `pos`
                        // and inside the buffer; keeps the measure decreasing
                        ParseResult::Malformed
                    } else {
                        match parse_items(b, i + 2, n) {
                            ItemsResult::Complete(ms, e) => ParseResult::Complete(
                                ValueModel::Array(ms),
                                e,
                            ),
                            ItemsResult::Incomplete => ParseResult::Incomplete,
                            ItemsResult::Malformed => ParseResult::Malformed,
                        }
                    },
                },
            }
        } else {
            ParseResult::Malformed
        }
    }
}

/// Parses `k` consecutive values starting at `pos`.
pub open spec fn parse_items(b: Seq<u8>, pos: int, k: int) -> ItemsResult
    decreases b.len() - pos, 2int, k,
{
    if k <= 0 {
        ItemsResult::Complete(Seq::empty(), pos)
    } else {
        match parse_value(b, pos) {
            ParseResult::Incomplete => ItemsResult::Incomplete,
            ParseResult::Malformed => ItemsResult::Malformed,
            ParseResult::Complete(m, n) => if n <= pos || n > b.len() {
                // never reached: a complete value consumes at least one
                // byte and stays inside the buffer; keeps the measure
                // decreasing
                ItemsResult::Malformed
            } else {
                match parse_items(b, n, k - 1) {
                    ItemsResult::Complete(ms, e) => ItemsResult::Complete(seq![m] + ms, e),
                    ItemsResult::Incomplete => ItemsResult::Incomplete,
                    ItemsResult::Malformed => ItemsResult::Malformed,
                }
            },
        }
    }
}

/// Prepends already-parsed elements to the outcome of the remaining run.
pub open spec fn items_cont(done: Seq<ValueModel>, r: ItemsResult) -> ItemsResult {
    match r {
        ItemsResult::Complete(ms, e) => ItemsResult::Complete(done + ms, e),
        ItemsResult::Incomplete => ItemsResult::Incomplete,
        ItemsResult::Malformed => ItemsResult::Malformed,
    }
}

/// The outcome of one decoding step over a byte buffer.
#[derive(Debug, PartialEq, Eq)]
pub enum Decoded {
    /// A full value and the index just past its final byte.
    Complete(Value, usize),
    /// More bytes must arrive before a value can be completed.
    Incomplete,
    /// The bytes can never grow into a value: the connection is beyond
    /// recovery.
    Malformed,
}

/// Where the scan for a header line's CRLF ended, in exec terms.
enum ScannedLine {
    /// The content runs up to this index, where CRLF follows.
    At(usize),
    Missing,
    Broken,
}

/// Exec mirror of `line_end`: scans for the CRLF ending the header line
/// that starts at `from`.
fn scan_line(buf: &Vec<u8>, from: usize) -> (r: ScannedLine)
    requires
        from <= buf@.len(),
    ensures
        match r {
            ScannedLine::At(i) => line_end(buf@, from as int) == LineEnd::At(i as int) && from
                <= i && i + 2 <= buf@.len(),
            ScannedLine::Missing => line_end(buf@, from as int) is Missing,
            ScannedLine::Broken => line_end(buf@, from as int) is Broken,
        },
{
    let len = buf.len();
    let mut j = from;
    while j < len
        invariant
            from <= j <= len,
            len == buf@.len(),
            find_crlf(buf@, from as int) == find_crlf(buf@, j as int),
        decreases len - j,
    {
        let b = buf[j];
        if b == CR || b == LF {
            if b == LF {
                return ScannedLine::Broken;
            }
            if j + 1 >= len {
                return ScannedLine::Missing;
            }
            if buf[j + 1] == LF {
                return ScannedLine::At(j);
            }
            return ScannedLine::Broken;
        }
        proof {
            assert(find_crlf(buf@, j as int) == find_crlf(buf@, j as int + 1));
        }
        j = j + 1;
    }
    ScannedLine::Missing
}

/// Exec mirror of `parse_int_i64` on `buf[from..to]`.
fn parse_int_range(buf: &Vec<u8>, from: usize, to: usize) -> (r: Option<i64>)
    requires
        from <= to <= buf@.len(),
    ensures
        match r {
            Some(v) => parse_int_i64(buf@.subrange(from as int, to as int)) == Some(v as int),
            None => parse_int_i64(buf@.subrange(from as int, to as int)) is None,
        },
{
    let ghost s = buf@.subrange(from as int, to as int);
    if from == to {
        return None;
    }
    let neg = buf[from] == 45;
    let start = if neg {
        from + 1
    } else {
        from
    };
    if start == to {
        return None;
    }
    let ghost digits = buf@.subrange(start as int, to as int);
    proof {
        if neg {
            assert(digits =~= s.subrange(1, s.len() as int));
        } else {
            assert(digits =~= s);
        }
    }
    let mut acc: u64 = 0;
    let mut over: bool = false;
    let mut j = start;
    while j < to
        invariant
            from <= start <= j <= to,
            to <= buf@.len(),
            s == buf@.subrange(from as int, to as int),
            s.len() >= 1,
            neg == (buf@[from as int] == 45),
            neg ==> start == from + 1 && digits == s.subrange(1, s.len() as int),
            !neg ==> start == from && digits == s,
            digits.len() >= 1,
            digits == buf@.subrange(start as int, to as int),
            digits.len() == to - start,
            all_digits(digits.subrange(0, j - start)),
            !over ==> acc as int == dec_val(digits.subrange(0, j - start)),
            over ==> dec_val(digits.subrange(0, j - start)) > 9223372036854775808int,
        decreases to - j,
    {
        let b = buf[j];
        proof {
            assert(digits[j - start] == buf@[j as int]);
        }
        if b < 48 || b > 57 {
            proof {
                assert(!is_digit(digits[j - start]));
                assert(!all_digits(digits));
                if neg {
                    assert(parse_int(s) is None);
                } else {
                    assert(parse_int(s) is None);
                }
            }
            return None;
        }
        let d = (b - 48) as u64;
        let ghost pre = digits.subrange(0, j - start);
        proof {
            assert(digits.subrange(0, j + 1 - start) =~= pre.push(digits[j - start]));
            lemma_dec_val_snoc(pre, digits[j - start]);
            lemma_dec_val_nonneg(pre);
        }
        if over {
            proof {
                assert(dec_val(digits.subrange(0, j + 1 - start)) == dec_val(pre) * 10 + (b - 48));
                assert(dec_val(pre) * 10 >= dec_val(pre)) by (nonlinear_arith)
                    requires dec_val(pre) >= 0;
            }
        } else if acc > (u64::MAX - d) / 10 {
            over = true;
            proof {
                assert(acc * 10 + d > u64::MAX) by (nonlinear_arith)
                    requires acc > (u64::MAX - d) / 10, d <= 9;
                assert(dec_val(digits.subrange(0, j + 1 - start)) == acc * 10 + (b - 48));
                assert(u64::MAX >= 9223372036854775808u64);
            }
        } else {
            proof {
                assert(acc * 10 + d <= u64::MAX) by (nonlinear_arith)
                    requires acc <= (u64::MAX - d) / 10, d <= 9;
            }
            acc = acc * 10 + d;
        }
        j = j + 1;
    }
    proof {
        assert(digits.subrange(0, (to - start) as int) =~= digits);
        assert(all_digits(digits));
        if neg {
            assert(parse_int(s) == Some(-dec_val(digits)));
        } else {
            assert(parse_int(s) == Some(dec_val(digits)));
        }
    }
    if over {
        return None;
    }
    if neg {
        if acc > 9223372036854775808u64 {
            return None;
        }
        if acc == 9223372036854775808u64 {
            return Some(i64::MIN);
        }
        return Some(-(acc as i64));
    }
    if acc > 9223372036854775807u64 {
        return None;
    }
    Some(acc as i64)
}

/// Copies `buf[from..to]` into a fresh vector.
fn copy_range(buf: &Vec<u8>, from: usize, to: usize) -> (r: Vec<u8>)
    requires
        from <= to <= buf@.len(),
    ensures
        r@ == buf@.subrange(from as int, to as int),
{
    let mut out: Vec<u8> = Vec::new();
    let mut j = from;
    while j < to
        invariant
            from <= j <= to,
            to <= buf@.len(),
            out@ == buf@.subrange(from as int, j as int),
        decreases to - j,
    {
        out.push(buf[j]);
        proof {
            assert(out@ =~= buf@.subrange(from as int, j as int + 1));
        }
        j = j + 1;
    }
    out
}

/// Decodes one value from `buf` starting at `pos`, exactly as the
/// grammar `parse_value` reads it: a complete value with the index just
/// past it, a request for more bytes, or a broken frame.
pub fn decode(buf: &Vec<u8>, pos: usize) -> (r: Decoded)
    ensures
        match r {
            Decoded::Complete(v, n) => parse_value(buf@, pos as int) == ParseResult::Complete(
                v.model(),
                n as int,
            ) && pos < n <= buf@.len(),
            Decoded::Incomplete => parse_value(buf@, pos as int) is Incomplete,
            Decoded::Malformed => parse_value(buf@, pos as int) is Malformed,
        },
    decreases buf@.len() - pos, 0int,
{
    let len = buf.len();
    if pos >= len {
        return Decoded::Incomplete;
    }
    let t = buf[pos];
    if t == 43 || t == 45 {
        match scan_line(buf, pos + 1) {
            ScannedLine::Missing => Decoded::Incomplete,
            ScannedLine::Broken => Decoded::Malformed,
            ScannedLine::At(i) => {
                let content = copy_range(buf, pos + 1, i);
                if t == 43 {
                    Decoded::Complete(Value::SimpleString(content), i + 2)
                } else {
                    Decoded::Complete(Value::Error(content), i + 2)
                }
            },
        }
    } else if t == 58 {
        match scan_line(buf, pos + 1) {
            ScannedLine::Missing => Decoded::Incomplete,
            ScannedLine::Broken => Decoded::Malformed,
            ScannedLine::At(i) => match parse_int_range(buf, pos + 1, i) {
                Some(v) => Decoded::Complete(Value::Integer(v), i + 2),
                None => Decoded::Malformed,
            },
        }
    } else if t == 36 {
        match scan_line(buf, pos + 1) {
            ScannedLine::Missing => Decoded::Incomplete,
            ScannedLine::Broken => Decoded::Malformed,
            ScannedLine::At(i) => match parse_int_range(buf, pos + 1, i) {
                None => Decoded::Malformed,
                Some(n) => {
                    if n == -1 {
                        return Decoded::Complete(Value::Null, i + 2);
                    }
                    if n < 0 {
                        return Decoded::Malformed;
                    }
                    let n_u = n as u64;
                    if (len as u128) < (i as u128) + 2 + (n_u as u128) + 2 {
                        return Decoded::Incomplete;
                    }
                    let nn = n_u as usize;
                    let end = i + 2 + nn;
                    if buf[end] == CR && buf[end + 1] == LF {
                        Decoded::Complete(Value::BulkString(copy_range(buf, i + 2, end)), end + 2)
                    } else {
                        Decoded::Malformed
                    }
                },
            },
        }
    } else if t == 42 {
        match scan_line(buf, pos + 1) {
            ScannedLine::Missing => Decoded::Incomplete,
            ScannedLine::Broken => Decoded::Malformed,
            ScannedLine::At(i) => match parse_int_range(buf, pos + 1, i) {
                None => Decoded::Malformed,
                Some(n) => {
                    if n == -1 {
                        return Decoded::Complete(Value::Null, i + 2);
                    }
                    if n < 0 {
                        return Decoded::Malformed;
                    }
                    match decode_items(buf, i + 2, n as u64) {
                        ItemsDecoded::Incomplete => Decoded::Incomplete,
                        ItemsDecoded::Malformed => Decoded::Malformed,
                        ItemsDecoded::Complete(items, e) => {
                            proof {
                                assert(Value::Array(items).model() == ValueModel::Array(
                                    models_of(items@),
                                ));
                            }
                            Decoded::Complete(Value::Array(items), e)
                        },
                    }
                },
            },
        }
    } else {
        Decoded::Malformed
    }
}

/// The outcome of decoding a run of consecutive values.
enum ItemsDecoded {
    Complete(Vec<Value>, usize),
    Incomplete,
    Malformed,
}

/// Decodes `count` consecutive values starting at `start`, exactly as
/// `parse_items` reads them.
fn decode_items(buf: &Vec<u8>, start: usize, count: u64) -> (r: ItemsDecoded)
    requires
        1 <= start <= buf@.len(),
    ensures
        match r {
            ItemsDecoded::Complete(vs, e) => parse_items(buf@, start as int, count as int)
                == ItemsResult::Complete(models_of(vs@), e as int) && start <= e <= buf@.len(),
            ItemsDecoded::Incomplete => parse_items(buf@, start as int, count as int)
                is Incomplete,
            ItemsDecoded::Malformed => parse_items(buf@, start as int, count as int)
                is Malformed,
        },
    decreases buf@.len() - start, 1int,
{
    let len = buf.len();
    let mut items: Vec<Value> = Vec::new();
    let mut cur: usize = start;
    let mut k: u64 = 0;
    proof {
        match parse_items(buf@, start as int, count as int) {
            ItemsResult::Complete(ms, e) => {
                assert(models_of(items@) =~= Seq::<ValueModel>::empty());
                assert(models_of(items@) + ms =~= ms);
            },
            _ => {},
        }
    }
    while k < count
        invariant
            len == buf@.len(),
            1 <= start <= cur <= len,
            k <= count,
            items@.len() == k as int,
            parse_items(buf@, start as int, count as int) == items_cont(
                models_of(items@),
                parse_items(buf@, cur as int, count - k),
            ),
        decreases count - k,
    {
        let step = decode(buf, cur);
        match step {
            Decoded::Incomplete => {
                proof {
                    assert(parse_items(buf@, cur as int, count - k) is Incomplete);
                }
                return ItemsDecoded::Incomplete;
            },
            Decoded::Malformed => {
                proof {
                    assert(parse_items(buf@, cur as int, count - k) is Malformed);
                }
                return ItemsDecoded::Malformed;
            },
            Decoded::Complete(v, nx) => {
                let ghost before = items@;
                let ghost done = models_of(items@);
                proof {
                    assert(parse_items(buf@, cur as int, count - k) == (
                    match parse_items(buf@, nx as int, count - k - 1) {
                        ItemsResult::Complete(ms, e) => ItemsResult::Complete(
                            seq![v.model()] + ms,
                            e,
                        ),
                        ItemsResult::Incomplete => ItemsResult::Incomplete,
                        ItemsResult::Malformed => ItemsResult::Malformed,
                    }));
                }
                items.push(v);
                proof {
                    lemma_models_of(items@);
                    lemma_models_of(before);
                    assert(items@ =~= before.push(v));
                    assert(models_of(items@) =~= done + seq![v.model()]);
                    match parse_items(buf@, nx as int, count - k - 1) {
                        ItemsResult::Complete(ms, e) => {
                            assert(done + (seq![v.model()] + ms) =~= (done + seq![v.model()])
                                + ms);
                        },
                        _ => {},
                    }
                }
                cur = nx;
                k = k + 1;
            },
        }
    }
    proof {
        assert(parse_items(buf@, cur as int, 0) == ItemsResult::Complete(
            Seq::<ValueModel>::empty(),
            cur as int,
        ));
        match parse_items(buf@, start as int, count as int) {
            ItemsResult::Complete(ms, e) => {
                assert(models_of(items@) + Seq::<ValueModel>::empty() =~= models_of(items@));
            },
            _ => {},
        }
    }
    ItemsDecoded::Complete(items, cur)
}

/// The decimal form of an in-range integer parses back to it, contains
/// no CR or LF, and is never empty.
pub proof fn lemma_parse_enc_int(i: int)
    requires
        i64::MIN <= i <= i64::MAX,
    ensures
        parse_int_i64(enc_int(i)) == Some(i),
        line_ok(enc_int(i)),
        enc_int(i).len() >= 1,
{
    if i >= 0 {
        lemma_dec_digits(i as nat);
        let e = enc_int(i);
        assert(e == dec_digits(i as nat));
        assert(is_digit(e[0]));
        assert forall|j: int| 0 <= j < e.len() implies e[j] != CR && e[j] != LF by {
            assert(is_digit(e[j]));
        }
        assert(parse_int(e) == Some(dec_val(e)));
    } else {
        lemma_dec_digits((-i) as nat);
        let d = dec_digits((-i) as nat);
        let e = enc_int(i);
        assert(e == seq![45u8] + d);
        assert(e[0] == 45);
        assert(e.subrange(1, e.len() as int) =~= d);
        assert forall|j: int| 0 <= j < e.len() implies e[j] != CR && e[j] != LF by {
            if j > 0 {
                assert(is_digit(d[j - 1]));
            }
        }
        assert(parse_int(e) == Some(-dec_val(d)));
    }
}

/// Every encoding starts with a prefix byte and a CRLF: it is never
/// shorter than three bytes.
pub proof fn lemma_encode_len(m: ValueModel)
    ensures
        encode_bytes(m).len() >= 3,
{
    match m {
        ValueModel::Integer(i) => {
            if i >= 0 {
                lemma_dec_digits(i as nat);
            } else {
                lemma_dec_digits((-i) as nat);
            }
        },
        ValueModel::BulkString(s) => {
            lemma_dec_digits(s.len());
        },
        ValueModel::Array(items) => {
            lemma_dec_digits(items.len());
        },
        _ => {},
    }
}

/// A byte inside a located encoding equals the encoding's byte.
pub proof fn lemma_bytes_at(b: Seq<u8>, pos: int, enc: Seq<u8>, j: int)
    requires
        0 <= pos,
        pos + enc.len() <= b.len(),
        b.subrange(pos, pos + enc.len()) == enc,
        0 <= j < enc.len(),
    ensures
        b[pos + j] == enc[j],
{
    assert(b.subrange(pos, pos + enc.len())[j] == b[pos + j]);
}

/// Decoding reads back exactly what the encoder wrote: if the canonical
/// encoding of a well-formed `m` sits at `pos` in `b`, parsing at `pos`
/// completes with `m` and consumes exactly the encoding.
#[verifier::rlimit(100)]
pub proof fn lemma_parse_encode(b: Seq<u8>, pos: int, m: ValueModel)
    requires
        wf_model(m),
        0 <= pos,
        pos + encode_bytes(m).len() <= b.len(),
        b.subrange(pos, pos + encode_bytes(m).len()) == encode_bytes(m),
    ensures
        parse_value(b, pos) == ParseResult::Complete(m, pos + encode_bytes(m).len()),
    decreases m, 0int,
{
    let enc = encode_bytes(m);
    match m {
        ValueModel::SimpleString(s) => {
            let j = pos + 1 + s.len();
            lemma_bytes_at(b, pos, enc, 0);
            assert(b[pos] == 43);
            assert forall|k: int| pos + 1 <= k < j implies b[k] != CR && b[k] != LF by {
                lemma_bytes_at(b, pos, enc, k - pos);
                assert(enc[k - pos] == s[k - pos - 1]);
            }
            lemma_bytes_at(b, pos, enc, 1 + s.len() as int);
            lemma_bytes_at(b, pos, enc, 2 + s.len() as int);
            assert(b[j] == CR);
            assert(b[j + 1] == LF);
            lemma_find_crlf_at(b, pos + 1, j);
            assert(line_end(b, pos + 1) == LineEnd::At(j));
            assert forall|k: int| 0 <= k < s.len() implies b.subrange(pos + 1, j)[k] == s[k] by {
                lemma_bytes_at(b, pos, enc, 1 + k);
            }
            assert(b.subrange(pos + 1, j) =~= s);
        },
        ValueModel::Error(s) => {
            let j = pos + 1 + s.len();
            lemma_bytes_at(b, pos, enc, 0);
            assert(b[pos] == 45);
            assert forall|k: int| pos + 1 <= k < j implies b[k] != CR && b[k] != LF by {
                lemma_bytes_at(b, pos, enc, k - pos);
                assert(enc[k - pos] == s[k - pos - 1]);
            }
            lemma_bytes_at(b, pos, enc, 1 + s.len() as int);
            lemma_bytes_at(b, pos, enc, 2 + s.len() as int);
            assert(b[j] == CR);
            assert(b[j + 1] == LF);
            lemma_find_crlf_at(b, pos + 1, j);
            assert(line_end(b, pos + 1) == LineEnd::At(j));
            assert forall|k: int| 0 <= k < s.len() implies b.subrange(pos + 1, j)[k] == s[k] by {
                lemma_bytes_at(b, pos, enc, 1 + k);
            }
            assert(b.subrange(pos + 1, j) =~= s);
        },
        ValueModel::Integer(i) => {
            lemma_parse_enc_int(i);
            let e = enc_int(i);
            let j = pos + 1 + e.len();
            lemma_bytes_at(b, pos, enc, 0);
            assert(b[pos] == 58);
            assert forall|k: int| pos + 1 <= k < j implies b[k] != CR && b[k] != LF by {
                lemma_bytes_at(b, pos, enc, k - pos);
                assert(enc[k - pos] == e[k - pos - 1]);
            }
            lemma_bytes_at(b, pos, enc, 1 + e.len() as int);
            lemma_bytes_at(b, pos, enc, 2 + e.len() as int);
            assert(b[j] == CR);
            assert(b[j + 1] == LF);
            lemma_find_crlf_at(b, pos + 1, j);
            assert(line_end(b, pos + 1) == LineEnd::At(j));
            assert forall|k: int| 0 <= k < e.len() implies b.subrange(pos + 1, j)[k] == e[k] by {
                lemma_bytes_at(b, pos, enc, 1 + k);
            }
            assert(b.subrange(pos + 1, j) =~= e);
        },
        ValueModel::BulkString(s) => {
            lemma_parse_enc_int(s.len() as int);
            let e = enc_int(s.len() as int);
            let j = pos + 1 + e.len();
            let n = s.len() as int;
            lemma_bytes_at(b, pos, enc, 0);
            assert(b[pos] == 36);
            assert forall|k: int| pos + 1 <= k < j implies b[k] != CR && b[k] != LF by {
                lemma_bytes_at(b, pos, enc, k - pos);
                assert(enc[k - pos] == e[k - pos - 1]);
            }
            lemma_bytes_at(b, pos, enc, 1 + e.len() as int);
            lemma_bytes_at(b, pos, enc, 2 + e.len() as int);
            assert(b[j] == CR);
            assert(b[j + 1] == LF);
            lemma_find_crlf_at(b, pos + 1, j);
            assert(line_end(b, pos + 1) == LineEnd::At(j));
            assert forall|k: int| 0 <= k < e.len() implies b.subrange(pos + 1, j)[k] == e[k] by {
                lemma_bytes_at(b, pos, enc, 1 + k);
            }
            assert(b.subrange(pos + 1, j) =~= e);
            assert(parse_int_i64(b.subrange(pos + 1, j)) == Some(n));
            lemma_bytes_at(b, pos, enc, 3 + e.len() as int + n);
            lemma_bytes_at(b, pos, enc, 3 + e.len() as int + n + 1);
            assert(b[j + 2 + n] == CR);
            assert(b[j + 2 + n + 1] == LF);
            assert forall|k: int| 0 <= k < n implies b.subrange(j + 2, j + 2 + n)[k] == s[k] by {
                lemma_bytes_at(b, pos, enc, 3 + e.len() as int + k);
            }
            assert(b.subrange(j + 2, j + 2 + n) =~= s);
            assert(parse_value(b, pos) == ParseResult::Complete(
                ValueModel::BulkString(s),
                j + 2 + n + 2,
            ));
        },
        ValueModel::Null => {
            lemma_bytes_at(b, pos, enc, 0);
            lemma_bytes_at(b, pos, enc, 1);
            lemma_bytes_at(b, pos, enc, 2);
            lemma_bytes_at(b, pos, enc, 3);
            lemma_bytes_at(b, pos, enc, 4);
            assert(b[pos] == 36);
            assert(b[pos + 1] == 45);
            assert(b[pos + 2] == 49);
            assert(b[pos + 3] == CR);
            assert(b[pos + 4] == LF);
            lemma_find_crlf_at(b, pos + 1, pos + 3);
            assert(line_end(b, pos + 1) == LineEnd::At(pos + 3));
            let content = b.subrange(pos + 1, pos + 3);
            assert(content =~= seq![45u8, 49u8]);
            let digits = content.subrange(1, 2);
            assert(digits =~= seq![49u8]);
            assert(digits.drop_last() =~= Seq::<u8>::empty());
            assert(dec_val(digits.drop_last()) == 0);
            assert(digits.last() == 49);
            assert(dec_val(digits) == dec_val(digits.drop_last()) * 10 + (digits.last() - 48));
            assert(dec_val(digits) == 1);
            assert(parse_int(content) == Some(-1));
        },
        ValueModel::Array(items) => {
            lemma_parse_enc_int(items.len() as int);
            let e = enc_int(items.len() as int);
            let j = pos + 1 + e.len();
            let n = items.len() as int;
            lemma_bytes_at(b, pos, enc, 0);
            assert(b[pos] == 42);
            assert forall|k: int| pos + 1 <= k < j implies b[k] != CR && b[k] != LF by {
                lemma_bytes_at(b, pos, enc, k - pos);
                assert(enc[k - pos] == e[k - pos - 1]);
            }
            lemma_bytes_at(b, pos, enc, 1 + e.len() as int);
            lemma_bytes_at(b, pos, enc, 2 + e.len() as int);
            assert(b[j] == CR);
            assert(b[j + 1] == LF);
            lemma_find_crlf_at(b, pos + 1, j);
            assert(line_end(b, pos + 1) == LineEnd::At(j));
            assert forall|k: int| 0 <= k < e.len() implies b.subrange(pos + 1, j)[k] == e[k] by {
                lemma_bytes_at(b, pos, enc, 1 + k);
            }
            assert(b.subrange(pos + 1, j) =~= e);
            assert(parse_int_i64(b.subrange(pos + 1, j)) == Some(n));
            let tail = encode_items(items, 0);
            assert forall|k: int| 0 <= k < tail.len() implies b.subrange(
                j + 2,
                j + 2 + tail.len(),
            )[k] == tail[k] by {
                lemma_bytes_at(b, pos, enc, 3 + e.len() as int + k);
                assert(enc[3 + e.len() as int + k] == tail[k]);
            }
            assert(b.subrange(j + 2, j + 2 + tail.len()) =~= tail);
            lemma_parse_encode_items(b, j + 2, items, 0);
            assert(items.subrange(0, n) =~= items);
        },
    }
}

/// The run of encodings of `items[k..]` parses back to those elements.
pub proof fn lemma_parse_encode_items(b: Seq<u8>, pos: int, items: Seq<ValueModel>, k: int)
    requires
        wf_items(items),
        0 <= k <= items.len(),
        0 <= pos,
        pos + encode_items(items, k).len() <= b.len(),
        b.subrange(pos, pos + encode_items(items, k).len()) == encode_items(items, k),
    ensures
        parse_items(b, pos, items.len() - k) == ItemsResult::Complete(
            items.subrange(k, items.len() as int),
            pos + encode_items(items, k).len(),
        ),
    decreases items, items.len() - k,
{
    lemma_wf_items(items);
    if k == items.len() {
        assert(items.subrange(k, items.len() as int) =~= Seq::<ValueModel>::empty());
    } else {
        let head = encode_bytes(items[k]);
        let tail = encode_items(items, k + 1);
        assert(encode_items(items, k) == head + tail);
        let sl = encode_items(items, k).len() as int;
        assert forall|j: int| 0 <= j < sl implies b[pos + j] == #[trigger] encode_items(
            items,
            k,
        )[j] by {
            assert(b.subrange(pos, pos + sl)[j] == b[pos + j]);
        }
        assert forall|j: int| 0 <= j < head.len() implies b.subrange(
            pos,
            pos + head.len(),
        )[j] == head[j] by {
            assert(encode_items(items, k)[j] == head[j]);
        }
        assert(b.subrange(pos, pos + head.len()) =~= head);
        lemma_parse_encode(b, pos, items[k]);
        lemma_encode_len(items[k]);
        let mid = pos + head.len();
        assert forall|j: int| 0 <= j < tail.len() implies b.subrange(
            mid,
            mid + tail.len(),
        )[j] == tail[j] by {
            assert(encode_items(items, k)[head.len() + j] == tail[j]);
            assert(b[pos + (head.len() + j)] == encode_items(items, k)[head.len() + j]);
        }
        assert(b.subrange(mid, mid + tail.len()) =~= tail);
        lemma_parse_encode_items(b, mid, items, k + 1);
        assert(seq![items[k]] + items.subrange(k + 1, items.len() as int)
            =~= items.subrange(k, items.len() as int));
    }
}

/// Round trip: decoding the encoding of a well-formed value completes
/// with exactly that value, consuming exactly its bytes.
pub proof fn lemma_round_trip(m: ValueModel)
    requires
        wf_model(m),
    ensures
        parse_value(encode_bytes(m), 0) == ParseResult::Complete(
            m,
            encode_bytes(m).len() as int,
        ),
{
    let enc = encode_bytes(m);
    assert(enc.subrange(0, enc.len() as int) =~= enc);
    lemma_parse_encode(enc, 0, m);
}

/// A completed parse is stable under the arrival of more bytes: however
/// a fragmented stream is buffered, the first complete value and its
/// length never change once parsing succeeds.
pub proof fn lemma_parse_extend(b: Seq<u8>, c: Seq<u8>, pos: int)
    requires
        b.len() <= c.len(),
        forall|k: int| 0 <= k < b.len() ==> b[k] == c[k],
        parse_value(b, pos) is Complete,
    ensures
        parse_value(c, pos) == parse_value(b, pos),
    decreases b.len() - pos, 1int, 0int,
{
    assert(0 <= pos < b.len());
    let t = b[pos];
    assert(c[pos] == t);
    if t == 43 || t == 45 || t == 58 || t == 36 || t == 42 {
        let fb = find_crlf(b, pos + 1);
        assert(fb is Some);
        lemma_find_crlf(b, pos + 1);
        let i = fb->0;
        lemma_find_crlf_extend(b, c, pos + 1);
        assert(find_crlf(c, pos + 1) == Some(i));
        assert(c[i] == b[i]);
        assert(b[i] == CR && i + 1 < b.len() && b[i + 1] == LF);
        assert(c[i + 1] == b[i + 1]);
        assert(line_end(b, pos + 1) == LineEnd::At(i));
        assert(line_end(c, pos + 1) == LineEnd::At(i));
        assert(b.subrange(pos + 1, i) =~= c.subrange(pos + 1, i));
        if t == 36 {
            match parse_int_i64(b.subrange(pos + 1, i)) {
                Some(n) => {
                    if n >= 0 {
                        assert(b.len() >= i + 2 + n + 2);
                        assert(c[i + 2 + n] == b[i + 2 + n]);
                        assert(c[i + 2 + n + 1] == b[i + 2 + n + 1]);
                        assert(b.subrange(i + 2, i + 2 + n) =~= c.subrange(i + 2, i + 2 + n));
                    }
                },
                None => {},
            }
        }
        if t == 42 {
            match parse_int_i64(b.subrange(pos + 1, i)) {
                Some(n) => {
                    if n >= 0 {
                        lemma_parse_items_extend(b, c, i + 2, n);
                    }
                },
                None => {},
            }
        }
    }
}

/// Companion to `lemma_parse_extend` for runs of consecutive values.
pub proof fn lemma_parse_items_extend(b: Seq<u8>, c: Seq<u8>, pos: int, k: int)
    requires
        b.len() <= c.len(),
        forall|j: int| 0 <= j < b.len() ==> b[j] == c[j],
        parse_items(b, pos, k) is Complete,
    ensures
        parse_items(c, pos, k) == parse_items(b, pos, k),
    decreases b.len() - pos, 2int, k,
{
    if k > 0 {
        assert(parse_value(b, pos) is Complete);
        lemma_parse_extend(b, c, pos);
        match parse_value(b, pos) {
            ParseResult::Complete(m, n) => {
                assert(pos < n <= b.len());
                lemma_parse_items_extend(b, c, n, k - 1);
            },
            _ => {},
        }
    }
}

/// The signed decimal token in `v`, as a machine integer, if any.
pub fn parse_i64_bytes(v: &Vec<u8>) -> (r: Option<i64>)
    ensures
        match r {
            Some(x) => parse_int_i64(v@) == Some(x as int),
            None => parse_int_i64(v@) is None,
        },
{
    proof {
        assert(v@.subrange(0, v@.len() as int) =~= v@);
    }
    parse_int_range(v, 0, v.len())
}

/// The canonical decimal bytes of `i`.
pub fn int_bytes(i: i64) -> (r: Vec<u8>)
    ensures
        r@ == enc_int(i as int),
{
    let mut out: Vec<u8> = Vec::new();
    push_int(i, &mut out);
    proof {
        assert(out@ =~= enc_int(i as int));
    }
    out
}

/// Whatever the decoder completes is well formed: its simple strings
/// and errors are CR/LF-free, its numbers and lengths in range. With
/// the round-trip law, every decoded value re-encodes to bytes that
/// decode back to it.
pub proof fn lemma_parse_wf(b: Seq<u8>, pos: int)
    ensures
        parse_value(b, pos) matches ParseResult::Complete(m, n) ==> wf_model(m),
    decreases b.len() - pos, 1int, 0int,
{
    if 0 <= pos < b.len() {
        let t = b[pos];
        if t == 43 || t == 45 || t == 58 || t == 36 || t == 42 {
            match find_crlf(b, pos + 1) {
                Some(i) => {
                    lemma_find_crlf(b, pos + 1);
                    if line_end(b, pos + 1) == LineEnd::At(i) {
                        let content = b.subrange(pos + 1, i);
                        assert forall|k: int| 0 <= k < content.len() implies (
                        #[trigger] content[k]) != CR && content[k] != LF by {
                            assert(content[k] == b[pos + 1 + k]);
                        }
                        assert(line_ok(content));
                        if t == 42 {
                            match parse_int_i64(b.subrange(pos + 1, i)) {
                                Some(n) => if n >= 0 && i + 2 > pos && i + 2 <= b.len() {
                                    lemma_parse_items_wf(b, i + 2, n);
                                },
                                None => {},
                            }
                        }
                    }
                },
                None => {},
            }
        }
    }
}

/// Companion to `lemma_parse_wf` for runs of consecutive values: a
/// completed run has exactly `k` elements, all well formed.
pub proof fn lemma_parse_items_wf(b: Seq<u8>, pos: int, k: int)
    ensures
        parse_items(b, pos, k) matches ItemsResult::Complete(ms, e) ==> ms.len() == (if k <= 0 {
            0int
        } else {
            k
        }) && wf_items(ms),
    decreases b.len() - pos, 2int, k,
{
    if k > 0 {
        lemma_parse_wf(b, pos);
        match parse_value(b, pos) {
            ParseResult::Complete(m, n) => {
                if pos < n <= b.len() {
                    lemma_parse_items_wf(b, n, k - 1);
                    match parse_items(b, n, k - 1) {
                        ItemsResult::Complete(ms, e) => {
                            let whole = seq![m] + ms;
                            lemma_wf_items(ms);
                            lemma_wf_items(whole);
                            assert forall|j: int| 0 <= j < whole.len() implies wf_model(
                                #[trigger] whole[j],
                            ) by {
                                if j > 0 {
                                    assert(whole[j] == ms[j - 1]);
                                }
                            }
                        },
                        _ => {},
                    }
                }
            },
            _ => {},
        }
    }
}

} // verus!

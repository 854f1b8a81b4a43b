//! The wire-protocol codec: framing of protocol values on a byte stream.
//!
//! A value is framed by a one-byte type tag: `+` simple string, `-` error,
//! `$` bulk string (length-prefixed, `$-1` for null), `*` array (count
//! prefix, then the elements in order).  Lines end with CR LF.  Text is
//! carried as UTF-8.
//!
//! `encode` turns a value into its frame; `decode` reads one complete frame
//! from the front of a buffer, reports that more bytes are needed, or
//! rejects bytes that violate the grammar.

use vstd::prelude::*;
use vstd::utf8::{decode_utf8, encode_utf8, valid_utf8};

use crate::resp::{value_model, value_models, Value, ValueModel};

verus! {

/// Carriage return.
pub const CR: u8 = 13;

/// Line feed.
pub const LF: u8 = 10;

/// The `+` tag of a simple string.
pub const TAG_SIMPLE: u8 = 43;

/// The `-` tag of an error line, also the minus sign of the null frame.
pub const TAG_ERROR: u8 = 45;

/// The `$` tag of a bulk string.
pub const TAG_BULK: u8 = 36;

/// The `*` tag of an array.
pub const TAG_ARRAY: u8 = 42;

/// The byte `0`.
pub const DIGIT_ZERO: u8 = 48;

/// The byte `9`.
pub const DIGIT_NINE: u8 = 57;

/// The byte `1`.
pub const DIGIT_ONE: u8 = 49;

/// Ceiling on a decoded length or element count: a frame that declares more
/// is rejected as malformed rather than waited for.
pub const MAX_LEN: usize = 536870912;

/// The two line-terminator bytes.
pub open spec fn crlf() -> Seq<u8> {
    seq![CR, LF]
}

/// The decimal digits of `n`, most significant first, as bytes.
pub open spec fn dec_bytes(n: nat) -> Seq<u8>
    decreases n,
{
    if n < 10 {
        seq![(DIGIT_ZERO + n) as u8]
    } else {
        dec_bytes(n / 10).push((DIGIT_ZERO + n % 10) as u8)
    }
}

/// The wire frame of a value model.
pub open spec fn encode_model(m: ValueModel) -> Seq<u8>
    decreases m,
{
    match m {
        ValueModel::SimpleString(s) => seq![TAG_SIMPLE] + encode_utf8(s) + crlf(),
        ValueModel::Error(s) => seq![TAG_ERROR] + encode_utf8(s) + crlf(),
        ValueModel::BulkString(s) => seq![TAG_BULK] + dec_bytes(encode_utf8(s).len()) + crlf()
            + encode_utf8(s) + crlf(),
        ValueModel::Null => seq![TAG_BULK, TAG_ERROR, DIGIT_ONE, CR, LF],
        ValueModel::Array(ms) => seq![TAG_ARRAY] + dec_bytes(ms.len()) + crlf()
            + encode_models(ms),
    }
}

/// The concatenated frames of a sequence of value models.
pub open spec fn encode_models(ms: Seq<ValueModel>) -> Seq<u8>
    decreases ms,
{
    if ms.len() == 0 {
        Seq::empty()
    } else {
        encode_model(ms[0]) + encode_models(ms.subrange(1, ms.len() as int))
    }
}

/// Line content: no embedded carriage return or line feed.
pub open spec fn line_ok(s: Seq<char>) -> bool {
    forall|i: int| 0 <= i < s.len() ==> s[i] != '\r' && s[i] != '\n'
}

/// A value model whose frame decodes back to it: simple strings and errors
/// carry no line terminators, and lengths stay under [`MAX_LEN`].
pub open spec fn wf_model(m: ValueModel) -> bool
    decreases m,
{
    match m {
        ValueModel::SimpleString(s) => line_ok(s),
        ValueModel::Error(s) => line_ok(s),
        ValueModel::BulkString(s) => encode_utf8(s).len() <= MAX_LEN,
        ValueModel::Null => true,
        ValueModel::Array(ms) => ms.len() <= MAX_LEN && (forall|i: int|
            0 <= i < ms.len() ==> wf_model(#[trigger] ms[i])),
    }
}

/// Appending one model to a sequence appends its frame to theirs.
pub proof fn lemma_encode_models_push(ms: Seq<ValueModel>, m: ValueModel)
    ensures
        encode_models(ms.push(m)) == encode_models(ms) + encode_model(m),
    decreases ms,
{
    let all = ms.push(m);
    if ms.len() == 0 {
        assert(all[0] == m);
        assert(all.subrange(1, all.len() as int) =~= Seq::<ValueModel>::empty());
        assert(encode_models(all) == encode_model(m) + encode_models(Seq::<ValueModel>::empty()));
        assert(encode_model(m) + Seq::<u8>::empty() =~= Seq::<u8>::empty() + encode_model(m));
    } else {
        assert(all[0] == ms[0]);
        let mstail = ms.subrange(1, ms.len() as int);
        assert(all.subrange(1, all.len() as int) =~= mstail.push(m));
        lemma_encode_models_push(mstail, m);
        assert(encode_models(all) == encode_model(ms[0]) + (encode_models(mstail) + encode_model(
            m,
        )));
        assert(encode_model(ms[0]) + (encode_models(mstail) + encode_model(m)) =~= (encode_model(
            ms[0],
        ) + encode_models(mstail)) + encode_model(m));
    }
}

fn push_crlf(out: &mut Vec<u8>)
    ensures
        final(out)@ == old(out)@ + crlf(),
{
    out.push(CR);
    out.push(LF);
    proof {
        assert(final(out)@ =~= old(out)@ + crlf());
    }
}

/// The decimal digits of `n`, most significant first.
fn fmt_dec(n: usize) -> (out: Vec<u8>)
    ensures
        out@ == dec_bytes(n as nat),
    decreases n,
{
    if n < 10 {
        let mut out: Vec<u8> = Vec::new();
        out.push((48 + n) as u8);
        proof {
            assert(out@ =~= dec_bytes(n as nat));
        }
        out
    } else {
        let mut out = fmt_dec(n / 10);
        out.push((48 + n % 10) as u8);
        proof {
            assert(out@ =~= dec_bytes(n as nat));
        }
        out
    }
}

/// Serializes one value as its wire frame.
pub fn encode(v: &Value) -> (out: Vec<u8>)
    ensures
        out@ == encode_model(v@),
{
    let mut out: Vec<u8> = Vec::new();
    encode_into(v, &mut out);
    out
}

fn encode_into(v: &Value, out: &mut Vec<u8>)
    ensures
        final(out)@ == old(out)@ + encode_model(v@),
    decreases v,
{
    match v {
        Value::SimpleString(s) => {
            out.push(TAG_SIMPLE);
            out.extend_from_slice(s.as_str().as_bytes());
            push_crlf(out);
            proof {
                assert(final(out)@ =~= old(out)@ + encode_model(v@));
            }
        },
        Value::Error(s) => {
            out.push(TAG_ERROR);
            out.extend_from_slice(s.as_str().as_bytes());
            push_crlf(out);
            proof {
                assert(final(out)@ =~= old(out)@ + encode_model(v@));
            }
        },
        Value::Null => {
            out.push(TAG_BULK);
            out.push(TAG_ERROR);
            out.push(DIGIT_ONE);
            out.push(CR);
            out.push(LF);
            proof {
                assert(final(out)@ =~= old(out)@ + encode_model(v@));
            }
        },
        Value::BulkString(s) => {
            out.push(TAG_BULK);
            let bytes = s.as_str().as_bytes();
            let mut digits = fmt_dec(bytes.len());
            out.append(&mut digits);
            push_crlf(out);
            out.extend_from_slice(bytes);
            push_crlf(out);
            proof {
                assert(final(out)@ =~= old(out)@ + encode_model(v@));
            }
        },
        Value::Array(vs) => {
            out.push(TAG_ARRAY);
            let mut digits = fmt_dec(vs.len());
            out.append(&mut digits);
            push_crlf(out);
            let ghost base = out@;
            let n = vs.len();
            proof {
                assert(vs@.subrange(0, 0) =~= Seq::<Value>::empty());
                assert(base + encode_models(value_models(Seq::<Value>::empty())) =~= base);
            }
            for k in 0..n
                invariant
                    n == vs@.len(),
                    *v is Array,
                    vs@ == v->Array_0@,
                    out@ == base + encode_models(value_models(vs@.subrange(0, k as int))),
            {
                proof {
                    assert(0 <= k < vs@.len());
                    assert(decreases_to!(*v => v->Array_0));
                    assert(decreases_to!(v->Array_0 => v->Array_0@));
                    assert(decreases_to!(v->Array_0@ => v->Array_0@[k as int]));
                }
                encode_into(&vs[k], out);
                proof {
                    let pre = vs@.subrange(0, k as int);
                    let cur = vs@.subrange(0, k + 1int);
                    let elem = value_model(vs@[k as int]);
                    assert(cur.subrange(0, cur.len() - 1) =~= pre);
                    assert(cur[cur.len() - 1] == vs@[k as int]);
                    assert(value_models(cur) == value_models(pre).push(elem));
                    lemma_encode_models_push(value_models(pre), elem);
                    assert((base + encode_models(value_models(pre))) + encode_model(elem) =~= base
                        + (encode_models(value_models(pre)) + encode_model(elem)));
                }
            }
            proof {
                assert(vs@.subrange(0, n as int) =~= vs@);
                crate::resp::lemma_value_models_len(vs@);
                assert(final(out)@ =~= old(out)@ + encode_model(v@));
            }
        },
    }
}

/// Bytes on the wire that violate the protocol grammar.  A connection that
/// produced one cannot be resynchronised and must be closed.
#[derive(Debug, PartialEq, Eq, Structural)]
pub struct ProtocolError;

/// Outcome of scanning for a line terminator.
pub enum LineScan {
    /// The buffer ends before a terminator: more bytes are needed.
    LinePending,
    /// A bare carriage return or line feed: the line is malformed.
    LineBad,
    /// The line's carriage return stands at this position.
    LineEnd(int),
}

/// Outcome of scanning a decimal length field.
pub enum NumScan {
    /// The buffer ends inside the field: more bytes are needed.
    NumPending,
    /// A non-digit byte, a missing terminator, or a value over [`MAX_LEN`].
    NumBad,
    /// The value read, and the position just past the terminator.
    NumVal(int, int),
}

/// Outcome of decoding one value.
pub enum Step {
    /// The buffer holds no complete frame yet.
    Incomplete,
    /// The bytes violate the grammar.
    Malformed,
    /// The decoded value, and the position just past its frame.
    Decoded(ValueModel, int),
}

/// `j`, but never below `lo`: keeps the parsing cursor strictly advancing,
/// which makes the recursion of the decoder visibly terminate.  Every frame
/// takes at least one byte, so on a real parse the floor never applies.
pub open spec fn at_least(j: int, lo: int) -> int {
    if j < lo {
        lo
    } else {
        j
    }
}

pub open spec fn is_digit(b: u8) -> bool {
    DIGIT_ZERO <= b <= DIGIT_NINE
}

/// Scans from `i` for the CR LF that ends a line; a bare CR or LF is
/// malformed, so line content can never contain either byte.
pub open spec fn scan_line(bytes: Seq<u8>, i: int) -> LineScan
    decreases bytes.len() - i,
{
    if i < 0 || i >= bytes.len() {
        LineScan::LinePending
    } else if bytes[i] == CR {
        if i + 1 >= bytes.len() {
            LineScan::LinePending
        } else if bytes[i + 1] == LF {
            LineScan::LineEnd(i)
        } else {
            LineScan::LineBad
        }
    } else if bytes[i] == LF {
        LineScan::LineBad
    } else {
        scan_line(bytes, i + 1)
    }
}

/// Scans a CR-LF-terminated decimal field from `i`, accumulating into `acc`.
pub open spec fn scan_number(bytes: Seq<u8>, i: int, acc: int) -> NumScan
    decreases bytes.len() - i,
{
    if i < 0 || i >= bytes.len() {
        NumScan::NumPending
    } else if is_digit(bytes[i]) {
        let acc2 = acc * 10 + (bytes[i] - DIGIT_ZERO);
        if acc2 > MAX_LEN as int {
            NumScan::NumBad
        } else {
            scan_number(bytes, i + 1, acc2)
        }
    } else if bytes[i] == CR {
        if i + 1 >= bytes.len() {
            NumScan::NumPending
        } else if bytes[i + 1] == LF {
            NumScan::NumVal(acc, i + 2)
        } else {
            NumScan::NumBad
        }
    } else {
        NumScan::NumBad
    }
}

/// Decodes one value at position `i`: the meaning of the wire grammar.
pub open spec fn decode_at(bytes: Seq<u8>, i: int) -> Step
    decreases
            (if bytes.len() - i >= 0 {
                bytes.len() - i
            } else {
                0
            }),
            0int,
{
    if i < 0 || i >= bytes.len() {
        Step::Incomplete
    } else if bytes[i] == TAG_SIMPLE || bytes[i] == TAG_ERROR {
        match scan_line(bytes, i + 1) {
            LineScan::LinePending => Step::Incomplete,
            LineScan::LineBad => Step::Malformed,
            LineScan::LineEnd(j) => {
                let content = bytes.subrange(i + 1, j);
                if valid_utf8(content) {
                    if bytes[i] == TAG_SIMPLE {
                        Step::Decoded(ValueModel::SimpleString(decode_utf8(content)), j + 2)
                    } else {
                        Step::Decoded(ValueModel::Error(decode_utf8(content)), j + 2)
                    }
                } else {
                    Step::Malformed
                }
            },
        }
    } else if bytes[i] == TAG_BULK {
        if i + 1 >= bytes.len() {
            Step::Incomplete
        } else if bytes[i + 1] == TAG_ERROR {
            if i + 2 >= bytes.len() {
                Step::Incomplete
            } else if bytes[i + 2] != DIGIT_ONE {
                Step::Malformed
            } else if i + 3 >= bytes.len() {
                Step::Incomplete
            } else if bytes[i + 3] != CR {
                Step::Malformed
            } else if i + 4 >= bytes.len() {
                Step::Incomplete
            } else if bytes[i + 4] != LF {
                Step::Malformed
            } else {
                Step::Decoded(ValueModel::Null, i + 5)
            }
        } else if is_digit(bytes[i + 1]) {
            match scan_number(bytes, i + 1, 0) {
                NumScan::NumPending => Step::Incomplete,
                NumScan::NumBad => Step::Malformed,
                NumScan::NumVal(n, j) => {
                    if j + n + 2 > bytes.len() {
                        Step::Incomplete
                    } else {
                        let content = bytes.subrange(j, j + n);
                        if bytes[j + n] == CR && bytes[j + n + 1] == LF {
                            if valid_utf8(content) {
                                Step::Decoded(ValueModel::BulkString(decode_utf8(content)), j + n
                                    + 2)
                            } else {
                                Step::Malformed
                            }
                        } else {
                            Step::Malformed
                        }
                    }
                },
            }
        } else {
            Step::Malformed
        }
    } else if bytes[i] == TAG_ARRAY {
        if i + 1 >= bytes.len() {
            Step::Incomplete
        } else if is_digit(bytes[i + 1]) {
            match scan_number(bytes, i + 1, 0) {
                NumScan::NumPending => Step::Incomplete,
                NumScan::NumBad => Step::Malformed,
                NumScan::NumVal(n, j) => decode_elems(bytes, at_least(j, i + 1), n, Seq::empty()),
            }
        } else {
            Step::Malformed
        }
    } else {
        Step::Malformed
    }
}

/// Decodes `n` further array elements from `i`, in front of those in `acc`.
pub open spec fn decode_elems(bytes: Seq<u8>, i: int, n: int, acc: Seq<ValueModel>) -> Step
    decreases
            (if bytes.len() - i >= 0 {
                bytes.len() - i
            } else {
                0
            }),
            n + 1,
{
    if n <= 0 {
        Step::Decoded(ValueModel::Array(acc), i)
    } else {
        match decode_at(bytes, i) {
            Step::Incomplete => Step::Incomplete,
            Step::Malformed => Step::Malformed,
            Step::Decoded(m, j) => decode_elems(bytes, at_least(j, i + 1), n - 1, acc.push(m)),
        }
    }
}

/// Decoding a buffer means decoding at its front.
pub open spec fn spec_decode(bytes: Seq<u8>) -> Step {
    decode_at(bytes, 0)
}

/// Relies on core::str::from_utf8: it succeeds exactly on valid UTF-8 input,
/// and the characters of the result are the decoding of that input.
#[verifier::external_body]
fn utf8_to_string(bytes: &[u8]) -> (r: Option<String>)
    ensures
        match r {
            Some(s) => valid_utf8(bytes@) && s@ == decode_utf8(bytes@),
            None => !valid_utf8(bytes@),
        },
{
    match core::str::from_utf8(bytes) {
        Ok(s) => Some(s.to_string()),
        Err(_) => None,
    }
}

enum LineFind {
    Pending,
    Bad,
    At(usize),
}

fn find_line(bytes: &[u8], start: usize) -> (r: LineFind)
    requires
        start <= bytes@.len(),
    ensures
        match r {
            LineFind::Pending => scan_line(bytes@, start as int) is LinePending,
            LineFind::Bad => scan_line(bytes@, start as int) is LineBad,
            LineFind::At(j) => scan_line(bytes@, start as int) == LineScan::LineEnd(j as int)
                && start <= j && j + 2 <= bytes@.len(),
        },
{
    let mut k = start;
    loop
        invariant
            start <= k <= bytes@.len(),
            scan_line(bytes@, start as int) == scan_line(bytes@, k as int),
        decreases bytes@.len() - k,
    {
        if k >= bytes.len() {
            return LineFind::Pending;
        }
        let b = bytes[k];
        if b == CR {
            if k + 1 >= bytes.len() {
                return LineFind::Pending;
            }
            if bytes[k + 1] == LF {
                return LineFind::At(k);
            }
            return LineFind::Bad;
        }
        if b == LF {
            return LineFind::Bad;
        }
        k = k + 1;
    }
}

enum NumFind {
    Pending,
    Bad,
    Val(usize, usize),
}

fn parse_number(bytes: &[u8], start: usize) -> (r: NumFind)
    requires
        start <= bytes@.len(),
    ensures
        match r {
            NumFind::Pending => scan_number(bytes@, start as int, 0) is NumPending,
            NumFind::Bad => scan_number(bytes@, start as int, 0) is NumBad,
            NumFind::Val(n, j) => scan_number(bytes@, start as int, 0) == NumScan::NumVal(
                n as int,
                j as int,
            ) && n <= MAX_LEN && start + 2 <= j <= bytes@.len(),
        },
{
    let mut k = start;
    let mut acc: u64 = 0;
    loop
        invariant
            start <= k <= bytes@.len(),
            acc <= MAX_LEN as u64,
            scan_number(bytes@, start as int, 0) == scan_number(bytes@, k as int, acc as int),
        decreases bytes@.len() - k,
    {
        if k >= bytes.len() {
            return NumFind::Pending;
        }
        let b = bytes[k];
        if DIGIT_ZERO <= b && b <= DIGIT_NINE {
            let acc2: u64 = acc * 10 + (b - DIGIT_ZERO) as u64;
            if acc2 > MAX_LEN as u64 {
                return NumFind::Bad;
            }
            acc = acc2;
            k = k + 1;
        } else if b == CR {
            if k + 1 >= bytes.len() {
                return NumFind::Pending;
            }
            if bytes[k + 1] == LF {
                return NumFind::Val(acc as usize, k + 2);
            }
            return NumFind::Bad;
        } else {
            return NumFind::Bad;
        }
    }
}

/// Decodes one complete value whose frame starts at `pos`.
///
/// `Ok(None)` means the buffer holds no complete frame yet and more bytes
/// must be read; `Ok(Some((v, next)))` hands back the value and the position
/// just past its frame; `Err` reports bytes that violate the grammar.
pub fn decode_from(bytes: &[u8], pos: usize) -> (r: Result<Option<(Value, usize)>, ProtocolError>)
    requires
        pos <= bytes@.len(),
    ensures
        match r {
            Ok(None) => decode_at(bytes@, pos as int) is Incomplete,
            Ok(Some((v, next))) => decode_at(bytes@, pos as int) == Step::Decoded(
                v@,
                next as int,
            ) && pos < next <= bytes@.len(),
            Err(e) => decode_at(bytes@, pos as int) is Malformed,
        },
    decreases bytes@.len() - pos,
{
    if pos >= bytes.len() {
        return Ok(None);
    }
    let tag = bytes[pos];
    if tag == TAG_SIMPLE || tag == TAG_ERROR {
        match find_line(bytes, pos + 1) {
            LineFind::Pending => Ok(None),
            LineFind::Bad => Err(ProtocolError),
            LineFind::At(j) => {
                let content = vstd::slice::slice_subrange(bytes, pos + 1, j);
                match utf8_to_string(content) {
                    None => Err(ProtocolError),
                    Some(s) => {
                        if tag == TAG_SIMPLE {
                            Ok(Some((Value::SimpleString(s), j + 2)))
                        } else {
                            Ok(Some((Value::Error(s), j + 2)))
                        }
                    },
                }
            },
        }
    } else if tag == TAG_BULK {
        if pos + 1 >= bytes.len() {
            return Ok(None);
        }
        let b1 = bytes[pos + 1];
        if b1 == TAG_ERROR {
            if pos + 2 >= bytes.len() {
                return Ok(None);
            }
            if bytes[pos + 2] != DIGIT_ONE {
                return Err(ProtocolError);
            }
            if pos + 3 >= bytes.len() {
                return Ok(None);
            }
            if bytes[pos + 3] != CR {
                return Err(ProtocolError);
            }
            if pos + 4 >= bytes.len() {
                return Ok(None);
            }
            if bytes[pos + 4] != LF {
                return Err(ProtocolError);
            }
            return Ok(Some((Value::Null, pos + 5)));
        }
        if !(DIGIT_ZERO <= b1 && b1 <= DIGIT_NINE) {
            return Err(ProtocolError);
        }
        match parse_number(bytes, pos + 1) {
            NumFind::Pending => Ok(None),
            NumFind::Bad => Err(ProtocolError),
            NumFind::Val(n, j) => {
                let total = bytes.len();
                if total - j < 2 || n > total - j - 2 {
                    return Ok(None);
                }
                if bytes[j + n] != CR || bytes[j + n + 1] != LF {
                    return Err(ProtocolError);
                }
                let content = vstd::slice::slice_subrange(bytes, j, j + n);
                match utf8_to_string(content) {
                    None => Err(ProtocolError),
                    Some(s) => Ok(Some((Value::BulkString(s), j + n + 2))),
                }
            },
        }
    } else if tag == TAG_ARRAY {
        if pos + 1 >= bytes.len() {
            return Ok(None);
        }
        let b1 = bytes[pos + 1];
        if !(DIGIT_ZERO <= b1 && b1 <= DIGIT_NINE) {
            return Err(ProtocolError);
        }
        match parse_number(bytes, pos + 1) {
            NumFind::Pending => Ok(None),
            NumFind::Bad => Err(ProtocolError),
            NumFind::Val(count, j) => {
                proof {
                    assert(at_least(j as int, pos + 1) == j as int);
                    assert(value_models(Seq::<Value>::empty()) =~= Seq::<ValueModel>::empty());
                }
                let mut elems: Vec<Value> = Vec::new();
                let mut cur = j;
                let mut remaining = count;
                loop
                    invariant
                        pos < cur <= bytes@.len(),
                        remaining <= count,
                        decode_at(bytes@, pos as int) == decode_elems(
                            bytes@,
                            j as int,
                            count as int,
                            Seq::empty(),
                        ),
                        decode_elems(bytes@, j as int, count as int, Seq::empty())
                            == decode_elems(
                            bytes@,
                            cur as int,
                            remaining as int,
                            value_models(elems@),
                        ),
                    decreases remaining,
                {
                    if remaining == 0 {
                        return Ok(Some((Value::Array(elems), cur)));
                    }
                    match decode_from(bytes, cur) {
                        Ok(None) => {
                            return Ok(None);
                        },
                        Err(e) => {
                            return Err(e);
                        },
                        Ok(Some((v, next))) => {
                            proof {
                                assert(at_least(next as int, cur + 1) == next as int);
                                let withv = elems@.push(v);
                                assert(withv.subrange(0, withv.len() - 1) =~= elems@);
                                assert(value_models(withv) == value_models(elems@).push(v@));
                            }
                            elems.push(v);
                            cur = next;
                            remaining = remaining - 1;
                        },
                    }
                }
            },
        }
    } else {
        Err(ProtocolError)
    }
}

/// Powers of ten.
pub open spec fn pow10(k: nat) -> nat
    decreases k,
{
    if k == 0 {
        1
    } else {
        10 * pow10((k - 1) as nat)
    }
}

proof fn lemma_pow10_pos(k: nat)
    ensures
        pow10(k) >= 1,
    decreases k,
{
    if k > 0 {
        lemma_pow10_pos((k - 1) as nat);
    }
}

proof fn lemma_dec_bytes_digit(n: nat)
    ensures
        dec_bytes(n).len() >= 1,
        is_digit(dec_bytes(n)[0]),
    decreases n,
{
    if n >= 10 {
        lemma_dec_bytes_digit(n / 10);
        assert(dec_bytes(n)[0] == dec_bytes(n / 10)[0]);
    }
}

proof fn lemma_scan_line_finds(bytes: Seq<u8>, i: int, j: int)
    requires
        0 <= i <= j,
        j + 2 <= bytes.len(),
        forall|k: int| i <= k < j ==> bytes[k] != CR && bytes[k] != LF,
        bytes[j] == CR,
        bytes[j + 1] == LF,
    ensures
        scan_line(bytes, i) == LineScan::LineEnd(j),
    decreases j - i,
{
    if i < j {
        lemma_scan_line_finds(bytes, i + 1, j);
    }
}

proof fn lemma_scan_dec(bytes: Seq<u8>, i: int, acc: int, n: nat)
    requires
        0 <= i,
        i + dec_bytes(n).len() <= bytes.len(),
        bytes.subrange(i, i + dec_bytes(n).len() as int) == dec_bytes(n),
        0 <= acc,
        acc * pow10(dec_bytes(n).len()) + n <= MAX_LEN as int,
    ensures
        scan_number(bytes, i, acc) == scan_number(
            bytes,
            i + dec_bytes(n).len() as int,
            acc * pow10(dec_bytes(n).len()) + n,
        ),
    decreases n,
{
    let ds = dec_bytes(n);
    let len = ds.len() as int;
    lemma_pow10_pos(ds.len());
    if n < 10 {
        assert(bytes.subrange(i, i + 1)[0] == bytes[i]);
        assert(bytes[i] == (DIGIT_ZERO + n) as u8);
        assert(pow10(0) == 1);
        assert(pow10(1) == 10);
        assert(acc * 10 + n <= MAX_LEN as int);
        assert(scan_number(bytes, i, acc) == scan_number(bytes, i + 1, acc * 10 + n));
    } else {
        let q = n / 10;
        let r = n % 10;
        let dq = dec_bytes(q);
        let lq = dq.len() as int;
        assert(ds == dq.push((DIGIT_ZERO + r) as u8));
        assert(len == lq + 1);
        assert(bytes.subrange(i, i + lq) =~= dq) by {
            assert forall|k: int| 0 <= k < lq implies bytes.subrange(i, i + lq)[k] == dq[k] by {
                assert(bytes.subrange(i, i + len)[k] == bytes[i + k]);
                assert(ds[k] == dq[k]);
            }
        }
        let p = pow10(dq.len()) as int;
        let mid = acc * p + q;
        lemma_pow10_pos(dq.len());
        vstd::arithmetic::div_mod::lemma_fundamental_div_mod(n as int, 10);
        assert(n == 10 * q + r);
        assert(mid * 10 + r == acc * (10 * p) + (10 * q + r)) by (nonlinear_arith)
            requires
                mid == acc * p + q,
        ;
        assert(pow10(ds.len()) == 10 * pow10(dq.len()));
        assert(mid * 10 + r == acc * pow10(ds.len()) + n);
        assert(mid >= 0) by (nonlinear_arith)
            requires
                mid == acc * p + q,
                acc >= 0,
                p >= 1,
                q >= 0,
        ;
        assert(mid <= mid * 10 + r) by (nonlinear_arith)
            requires
                mid >= 0,
                r >= 0,
        ;
        lemma_scan_dec(bytes, i, acc, q);
        assert(bytes.subrange(i, i + len)[lq] == bytes[i + lq]);
        assert(bytes[i + lq] == (DIGIT_ZERO + r) as u8);
        assert(is_digit(bytes[i + lq]));
        assert(scan_number(bytes, i + lq, mid) == scan_number(bytes, i + len, mid * 10 + r));
    }
}

proof fn lemma_scan_len_field(bytes: Seq<u8>, i: int, n: nat)
    requires
        0 <= i,
        i + dec_bytes(n).len() + 2 <= bytes.len(),
        bytes.subrange(i, i + dec_bytes(n).len() as int) == dec_bytes(n),
        bytes[i + dec_bytes(n).len()] == CR,
        bytes[i + dec_bytes(n).len() + 1] == LF,
        n <= MAX_LEN,
    ensures
        scan_number(bytes, i, 0) == NumScan::NumVal(n as int, i + dec_bytes(n).len() + 2),
{
    let len = dec_bytes(n).len() as int;
    lemma_pow10_pos(dec_bytes(n).len());
    assert(0 * pow10(dec_bytes(n).len()) == 0) by (nonlinear_arith);
    lemma_scan_dec(bytes, i, 0, n);
    assert(scan_number(bytes, i + len, n as int) == NumScan::NumVal(n as int, i + len + 2));
}

/// The UTF-8 bytes of line content free of CR and LF are themselves free of
/// the CR and LF bytes: a multi-byte encoding uses bytes of 0x80 and above.
proof fn lemma_encode_utf8_line_ok(s: Seq<char>)
    requires
        line_ok(s),
    ensures
        forall|k: int|
            0 <= k < encode_utf8(s).len() ==> #[trigger] encode_utf8(s)[k] != CR && encode_utf8(
                s,
            )[k] != LF,
    decreases s.len(),
{
    if s.len() > 0 {
        let c = s[0];
        let sc = c as u32;
        vstd::utf8::char_is_scalar(c);
        let eb = vstd::utf8::encode_scalar(sc);
        assert(c != '\r' && c != '\n');
        assert('\r' as u32 == 13);
        assert('\n' as u32 == 10);
        vstd::utf8::char_u32_cast(c, sc);
        vstd::utf8::char_u32_cast('\r', 13);
        vstd::utf8::char_u32_cast('\n', 10);
        assert(sc != 13 && sc != 10);
        if vstd::utf8::has_width_1_encoding(sc) {
            assert((sc & 0x7F) as u8 != CR && (sc & 0x7F) as u8 != LF) by (bit_vector)
                requires
                    sc <= 0x7F,
                    sc != 13,
                    sc != 10,
            ;
        } else {
            assert forall|k: int| 0 <= k < eb.len() implies eb[k] >= 0x80 by {
                let b2 = ((sc >> 6) & 0x1F) as u8;
                let b3h = ((sc >> 12) & 0x0F) as u8;
                let b4h = ((sc >> 18) & 0x7) as u8;
                let c1 = (sc & 0x3F) as u8;
                let c2 = ((sc >> 6) & 0x3F) as u8;
                let c3 = ((sc >> 12) & 0x3F) as u8;
                assert(0xC0u8 | b2 >= 0x80) by (bit_vector);
                assert(0xE0u8 | b3h >= 0x80) by (bit_vector);
                assert(0xF0u8 | b4h >= 0x80) by (bit_vector);
                assert(0x80u8 | c1 >= 0x80) by (bit_vector);
                assert(0x80u8 | c2 >= 0x80) by (bit_vector);
                assert(0x80u8 | c3 >= 0x80) by (bit_vector);
            }
        }
        assert(forall|k: int| 0 <= k < eb.len() ==> #[trigger] eb[k] != CR && eb[k] != LF);
        let tail = s.drop_first();
        assert(line_ok(tail)) by {
            assert(forall|t: int| 0 <= t < tail.len() ==> #[trigger] tail[t] == s[t + 1]);
        }
        lemma_encode_utf8_line_ok(tail);
        assert(encode_utf8(s) == eb + encode_utf8(tail));
    }
}

/// The frame of `m` fills `bytes` from `i` on, with room behind it.
pub open spec fn frame_at(bytes: Seq<u8>, i: int, m: ValueModel) -> bool {
    &&& 0 <= i
    &&& i + encode_model(m).len() <= bytes.len()
    &&& bytes.subrange(i, i + encode_model(m).len() as int) == encode_model(m)
}

proof fn lemma_encode_model_len_pos(m: ValueModel)
    ensures
        encode_model(m).len() >= 1,
{
}

/// Decoding finds exactly the value whose frame sits at the cursor: the
/// round trip of every well-formed value, wherever its frame stands in the
/// buffer and whatever follows it.
#[verifier::rlimit(60)]
pub proof fn lemma_decode_frame(m: ValueModel, bytes: Seq<u8>, i: int)
    requires
        wf_model(m),
        frame_at(bytes, i, m),
    ensures
        decode_at(bytes, i) == Step::Decoded(m, i + encode_model(m).len()),
    decreases m,
{
    let e = encode_model(m);
    let len = e.len() as int;
    assert(forall|k: int| i <= k < i + len ==> #[trigger] bytes[k] == e[k - i]) by {
        assert(forall|k: int|
            i <= k < i + len ==> bytes.subrange(i, i + len)[k - i] == #[trigger] bytes[k]);
    }
    match m {
        ValueModel::SimpleString(s) => {
            lemma_decode_frame_line(m, s, bytes, i);
        },
        ValueModel::Error(s) => {
            lemma_decode_frame_line(m, s, bytes, i);
        },
        ValueModel::Null => {
            assert(bytes[i] == TAG_BULK && bytes[i + 1] == TAG_ERROR && bytes[i + 2] == DIGIT_ONE
                && bytes[i + 3] == CR && bytes[i + 4] == LF);
        },
        ValueModel::BulkString(s) => {
            let eb = vstd::utf8::encode_utf8(s);
            let blen = eb.len();
            let ds = dec_bytes(blen);
            let dl = ds.len() as int;
            assert(e == seq![TAG_BULK] + ds + crlf() + eb + crlf());
            assert(bytes[i] == TAG_BULK);
            lemma_dec_bytes_digit(blen);
            assert(bytes[i + 1] == ds[0]);
            assert(is_digit(bytes[i + 1]) && bytes[i + 1] != TAG_ERROR);
            assert(bytes.subrange(i + 1, i + 1 + dl) =~= ds) by {
                assert(forall|k: int| 0 <= k < dl ==> #[trigger] ds[k] == e[1 + k]);
            }
            assert(bytes[i + 1 + dl] == CR && bytes[i + 1 + dl + 1] == LF);
            lemma_scan_len_field(bytes, i + 1, blen);
            let j = i + 1 + dl + 2;
            assert(scan_number(bytes, i + 1, 0) == NumScan::NumVal(blen as int, j));
            assert(j + blen + 2 == i + len);
            assert(bytes.subrange(j, j + blen as int) =~= eb) by {
                assert(forall|k: int| 0 <= k < blen ==> #[trigger] eb[k] == e[1 + dl + 2 + k]);
            }
            assert(bytes[j + blen] == CR && bytes[j + blen + 1] == LF);
            vstd::utf8::encode_utf8_valid_utf8(s);
            vstd::utf8::encode_utf8_decode_utf8(s);
        },
        ValueModel::Array(ms) => {
            let inner = encode_models(ms);
            let cnt = ms.len();
            let ds = dec_bytes(cnt);
            let dl = ds.len() as int;
            assert(e == seq![TAG_ARRAY] + ds + crlf() + inner);
            assert(bytes[i] == TAG_ARRAY);
            lemma_dec_bytes_digit(cnt);
            assert(bytes[i + 1] == ds[0]);
            assert(is_digit(bytes[i + 1]));
            assert(bytes.subrange(i + 1, i + 1 + dl) =~= ds) by {
                assert(forall|k: int| 0 <= k < dl ==> #[trigger] ds[k] == e[1 + k]);
            }
            assert(bytes[i + 1 + dl] == CR && bytes[i + 1 + dl + 1] == LF);
            lemma_scan_len_field(bytes, i + 1, cnt);
            let j = i + 1 + dl + 2;
            assert(scan_number(bytes, i + 1, 0) == NumScan::NumVal(cnt as int, j));
            assert(at_least(j, i + 1) == j);
            assert(bytes.subrange(j, j + inner.len() as int) =~= inner) by {
                assert(forall|k: int|
                    0 <= k < inner.len() ==> #[trigger] inner[k] == e[1 + dl + 2 + k]);
            }
            lemma_decode_frame_elems(ms, bytes, j, Seq::empty());
            assert(Seq::empty() + ms =~= ms);
            assert(j + inner.len() == i + len);
        },
    }
}

proof fn lemma_decode_frame_line(m: ValueModel, s: Seq<char>, bytes: Seq<u8>, i: int)
    requires
        wf_model(m),
        frame_at(bytes, i, m),
        m == ValueModel::SimpleString(s) || m == ValueModel::Error(s),
    ensures
        decode_at(bytes, i) == Step::Decoded(m, i + encode_model(m).len()),
{
    let e = encode_model(m);
    let len = e.len() as int;
    let eb = vstd::utf8::encode_utf8(s);
    let tag: u8 = if m is SimpleString {
        TAG_SIMPLE
    } else {
        TAG_ERROR
    };
    assert(e == seq![tag] + eb + crlf());
    assert(forall|k: int| i <= k < i + len ==> #[trigger] bytes[k] == e[k - i]) by {
        assert(forall|k: int|
            i <= k < i + len ==> bytes.subrange(i, i + len)[k - i] == #[trigger] bytes[k]);
    }
    assert(bytes[i] == tag);
    let j = i + 1 + eb.len() as int;
    lemma_encode_utf8_line_ok(s);
    assert(forall|k: int| i + 1 <= k < j ==> bytes[k] != CR && bytes[k] != LF) by {
        assert(forall|k: int| i + 1 <= k < j ==> #[trigger] bytes[k] == eb[k - i - 1]);
    }
    assert(bytes[j] == CR && bytes[j + 1] == LF);
    lemma_scan_line_finds(bytes, i + 1, j);
    assert(bytes.subrange(i + 1, j) =~= eb) by {
        assert(forall|k: int| 0 <= k < eb.len() ==> #[trigger] eb[k] == e[1 + k]);
    }
    vstd::utf8::encode_utf8_valid_utf8(s);
    vstd::utf8::encode_utf8_decode_utf8(s);
    assert(j + 2 == i + len);
}

proof fn lemma_decode_frame_elems(ms: Seq<ValueModel>, bytes: Seq<u8>, i: int, acc: Seq<
    ValueModel,
>)
    requires
        0 <= i,
        i + encode_models(ms).len() <= bytes.len(),
        bytes.subrange(i, i + encode_models(ms).len() as int) == encode_models(ms),
        forall|t: int| 0 <= t < ms.len() ==> wf_model(#[trigger] ms[t]),
    ensures
        decode_elems(bytes, i, ms.len() as int, acc) == Step::Decoded(
            ValueModel::Array(acc + ms),
            i + encode_models(ms).len(),
        ),
    decreases ms,
{
    let inner = encode_models(ms);
    let ilen = inner.len() as int;
    assert(forall|k: int| i <= k < i + ilen ==> #[trigger] bytes[k] == inner[k - i]) by {
        assert(forall|k: int|
            i <= k < i + ilen ==> bytes.subrange(i, i + ilen)[k - i] == #[trigger] bytes[k]);
    }
    if ms.len() == 0 {
        assert(acc + ms =~= acc);
    } else {
        let m0 = ms[0];
        let e0 = encode_model(m0);
        let l0 = e0.len() as int;
        let tail = ms.subrange(1, ms.len() as int);
        let rest = encode_models(tail);
        assert(inner == e0 + rest);
        assert(bytes.subrange(i, i + l0) =~= e0) by {
            assert(forall|k: int| 0 <= k < l0 ==> #[trigger] e0[k] == inner[k]);
        }
        assert(frame_at(bytes, i, m0));
        lemma_decode_frame(m0, bytes, i);
        lemma_encode_model_len_pos(m0);
        assert(at_least(i + l0, i + 1) == i + l0);
        assert(bytes.subrange(i + l0, i + l0 + rest.len() as int) =~= rest) by {
            assert(forall|k: int| 0 <= k < rest.len() ==> #[trigger] rest[k] == inner[l0 + k]);
        }
        lemma_decode_frame_elems(tail, bytes, i + l0, acc.push(m0));
        assert(acc.push(m0) + tail =~= acc + ms);
        assert(decode_elems(bytes, i, ms.len() as int, acc) == decode_elems(
            bytes,
            i + l0,
            ms.len() - 1,
            acc.push(m0),
        ));
    }
}

/// Round trip: decoding the frame of any well-formed value yields that very
/// value and consumes the whole frame.
pub proof fn lemma_round_trip(m: ValueModel)
    requires
        wf_model(m),
    ensures
        spec_decode(encode_model(m)) == Step::Decoded(m, encode_model(m).len() as int),
{
    let e = encode_model(m);
    assert(e.subrange(0, e.len() as int) =~= e);
    lemma_decode_frame(m, e, 0);
}

/// Decodes one complete value from the front of the buffer.
pub fn decode(bytes: &[u8]) -> (r: Result<Option<(Value, usize)>, ProtocolError>)
    ensures
        match r {
            Ok(None) => spec_decode(bytes@) is Incomplete,
            Ok(Some((v, next))) => spec_decode(bytes@) == Step::Decoded(v@, next as int) && 0
                < next <= bytes@.len(),
            Err(e) => spec_decode(bytes@) is Malformed,
        },
{
    decode_from(bytes, 0)
}

} // verus!

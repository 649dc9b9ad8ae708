//! The decoder: from bytes to a document.
//!
//! The grammar has no whitespace. An integer is `i`, a decimal numeral and
//! `e`; a byte string is its length in decimal, `:` and that many bytes; a
//! list is `l`, its items and `e`; a dictionary is `d`, byte-string keys
//! each followed by a value, and `e`. Keys may come in any order; where a
//! key comes twice its last value stands.

use crate::bytes::{COLON, DICT, END, INT, LIST, MINUS, NINE, ZERO};
use crate::decimal::{decimal, digit_run, digits_value, is_digit, lemma_digit_run_is};
use crate::text::{ascii_text, decimal_string};
use crate::value::{
    lemma_list_view_push, lemma_nests_within_more, list_view, nests_within, Dict, Document, Value,
};
use vstd::prelude::*;
use vstd::slice::{slice_subrange, slice_to_vec};
use vstd::string::StringExecFns;

verus! {

/// What was wrong with an input that is no document.
#[derive(Clone, Copy, Debug, PartialEq, Eq, Structural)]
pub enum DecodeErrorKind {
    /// The input ended inside a value: a truncated length prefix, a byte
    /// string shorter than its length, a list or dictionary without its
    /// closing `e`.
    UnexpectedEnd,
    /// A value, or a dictionary key, starts with a byte that starts none.
    UnexpectedByte,
    /// An integer is no minimal decimal numeral between `i` and `e`, or
    /// does not fit 64 bits.
    InvalidInteger,
    /// The digits of a length are not followed by `:`.
    InvalidLength,
    /// Bytes follow the end of the document.
    TrailingBytes,
}

/// Why an input was refused, and the offset of the byte that was.
#[derive(Clone, Copy, Debug, PartialEq, Eq, Structural)]
pub struct DecodeError {
    pub kind: DecodeErrorKind,
    pub offset: usize,
}

impl DecodeErrorKind {
    /// What the decoder expected where it found the input wrong.
    pub open spec fn expected(self) -> Seq<char> {
        match self {
            DecodeErrorKind::UnexpectedEnd => "expected more input: a value is cut short"@,
            DecodeErrorKind::UnexpectedByte => "expected a value: `i`, `l`, `d` or a digit"@,
            DecodeErrorKind::InvalidInteger => "expected a minimal decimal integer closed by `e`"@,
            DecodeErrorKind::InvalidLength => "expected `:` after the length of a byte string"@,
            DecodeErrorKind::TrailingBytes => "expected the end of the input after the document"@,
        }
    }

    fn expected_str(self) -> (text: &'static str)
        ensures
            text@ == self.expected(),
    {
        match self {
            DecodeErrorKind::UnexpectedEnd => "expected more input: a value is cut short",
            DecodeErrorKind::UnexpectedByte => "expected a value: `i`, `l`, `d` or a digit",
            DecodeErrorKind::InvalidInteger => "expected a minimal decimal integer closed by `e`",
            DecodeErrorKind::InvalidLength => "expected `:` after the length of a byte string",
            DecodeErrorKind::TrailingBytes => "expected the end of the input after the document",
        }
    }
}

impl DecodeError {
    /// The description of the error: what was expected, and at which
    /// offset.
    pub open spec fn message_spec(self) -> Seq<char> {
        self.kind.expected() + " at offset "@ + ascii_text(decimal(self.offset as nat))
    }

    /// Describes the error: what was expected, and at which offset.
    pub fn message(&self) -> (text: String)
        ensures
            text@ == self.message_spec(),
    {
        let mut text = String::from_str(self.kind.expected_str());
        text.append(" at offset ");
        let offset = decimal_string(self.offset);
        text.append(offset.as_str());
        text
    }
}

/// The outcome of reading one item off the front of an input: the item and
/// the input left after it, or what was wrong and how many bytes were left
/// at the byte that was wrong.
pub type Parsed<T> = Result<(T, Seq<u8>), (DecodeErrorKind, nat)>;

/// Reads a byte string: its length in decimal, `:`, its bytes.
pub open spec fn parse_bytes(s: Seq<u8>) -> Parsed<Seq<u8>> {
    let n = digit_run(s);
    if n == 0 {
        if s.len() == 0 {
            Err((DecodeErrorKind::UnexpectedEnd, 0nat))
        } else {
            Err((DecodeErrorKind::UnexpectedByte, s.len()))
        }
    } else if n == s.len() {
        Err((DecodeErrorKind::UnexpectedEnd, 0nat))
    } else if s[n as int] != COLON {
        Err((DecodeErrorKind::InvalidLength, (s.len() - n) as nat))
    } else {
        let len = digits_value(s.take(n as int));
        let body = s.skip(n as int + 1);
        if len > body.len() {
            Err((DecodeErrorKind::UnexpectedEnd, 0nat))
        } else {
            Ok((body.take(len as int), body.skip(len as int)))
        }
    }
}

/// Reads what follows the `i` of an integer: an optional `-`, digits
/// without a leading zero (but for `0` itself, which takes no `-`), `e`.
pub open spec fn parse_int(s: Seq<u8>) -> Parsed<Document> {
    let negative = s.len() > 0 && s[0] == MINUS;
    let t = if negative {
        s.skip(1)
    } else {
        s
    };
    let n = digit_run(t);
    if n == 0 {
        if t.len() == 0 {
            Err((DecodeErrorKind::UnexpectedEnd, 0nat))
        } else {
            Err((DecodeErrorKind::InvalidInteger, t.len()))
        }
    } else if n == t.len() {
        Err((DecodeErrorKind::UnexpectedEnd, 0nat))
    } else if t[n as int] != END {
        Err((DecodeErrorKind::InvalidInteger, (t.len() - n) as nat))
    } else if t[0] == ZERO && (n > 1 || negative) {
        Err((DecodeErrorKind::InvalidInteger, t.len()))
    } else {
        let magnitude = digits_value(t.take(n as int));
        let i = if negative {
            -magnitude
        } else {
            magnitude as int
        };
        if i64::MIN <= i <= i64::MAX {
            Ok((Document::Int(i as i64), t.skip(n as int + 1)))
        } else {
            Err((DecodeErrorKind::InvalidInteger, s.len()))
        }
    }
}

/// Reads one value off the front of the input.
pub open spec fn parse_value(s: Seq<u8>) -> Parsed<Document>
    decreases s.len(), 0int,
{
    if s.len() == 0 {
        Err((DecodeErrorKind::UnexpectedEnd, 0nat))
    } else if s[0] == INT {
        parse_int(s.skip(1))
    } else if is_digit(s[0]) {
        match parse_bytes(s) {
            Ok((bytes, rest)) => Ok((Document::Bytes(bytes), rest)),
            Err(failure) => Err(failure),
        }
    } else if s[0] == LIST {
        match parse_items(s.skip(1), Seq::empty()) {
            Ok((items, rest)) => Ok((Document::List(items), rest)),
            Err(failure) => Err(failure),
        }
    } else if s[0] == DICT {
        match parse_entries(s.skip(1), Map::empty()) {
            Ok((map, rest)) => Ok((Document::Dict(map), rest)),
            Err(failure) => Err(failure),
        }
    } else {
        Err((DecodeErrorKind::UnexpectedByte, s.len()))
    }
}

/// Reads the items of a list up to its closing `e`, after the items in
/// `read`. Reading a value uses up input; the lengths are compared where
/// the definition has to show that it comes to an end.
pub open spec fn parse_items(s: Seq<u8>, read: Seq<Document>) -> Parsed<Seq<Document>>
    decreases s.len(), 1int,
{
    if s.len() == 0 {
        Err((DecodeErrorKind::UnexpectedEnd, 0nat))
    } else if s[0] == END {
        Ok((read, s.skip(1)))
    } else {
        match parse_value(s) {
            Err(failure) => Err(failure),
            Ok((item, rest)) => if rest.len() < s.len() {
                parse_items(rest, read.push(item))
            } else {
                Err((DecodeErrorKind::UnexpectedEnd, 0nat))
            },
        }
    }
}

/// Reads the entries of a dictionary up to its closing `e`, onto the
/// entries in `read`: a later value for a key replaces an earlier one.
/// Reading a key or a value uses up input; the lengths are compared where
/// the definition has to show that it comes to an end.
pub open spec fn parse_entries(s: Seq<u8>, read: Map<Seq<u8>, Document>) -> Parsed<
    Map<Seq<u8>, Document>,
>
    decreases s.len(), 1int,
{
    if s.len() == 0 {
        Err((DecodeErrorKind::UnexpectedEnd, 0nat))
    } else if s[0] == END {
        Ok((read, s.skip(1)))
    } else {
        match parse_bytes(s) {
            Err(failure) => Err(failure),
            Ok((key, after_key)) => if after_key.len() < s.len() {
                match parse_value(after_key) {
                    Err(failure) => Err(failure),
                    Ok((value, rest)) => if rest.len() < after_key.len() {
                        parse_entries(rest, read.insert(key, value))
                    } else {
                        Err((DecodeErrorKind::UnexpectedEnd, 0nat))
                    },
                }
            } else {
                Err((DecodeErrorKind::UnexpectedEnd, 0nat))
            },
        }
    }
}

/// What decoding a whole input gives: its one document, or the first thing
/// that was wrong and the offset it stands at. Bytes after the document are
/// an error.
pub open spec fn decode_spec(s: Seq<u8>) -> Result<Document, DecodeError> {
    match parse_value(s) {
        Err((kind, remaining)) => Err(DecodeError { kind, offset: (s.len() - remaining) as usize }),
        Ok((doc, rest)) => if rest.len() == 0 {
            Ok(doc)
        } else {
            Err(
                DecodeError {
                    kind: DecodeErrorKind::TrailingBytes,
                    offset: (s.len() - rest.len()) as usize,
                },
            )
        },
    }
}

/// The error reports the failure of the grammar on an input of `total`
/// bytes.
pub open spec fn reports(error: DecodeError, total: nat, failure: (DecodeErrorKind, nat)) -> bool {
    error.kind == failure.0 && error.offset + failure.1 == total
}

fn fail_at<T>(kind: DecodeErrorKind, offset: usize) -> (r: Result<T, DecodeError>)
    ensures
        r is Err,
        r->Err_0.kind == kind,
        r->Err_0.offset == offset,
{
    Err(DecodeError { kind, offset })
}

/// Reads the run of digits at `pos`. Gives where it ends, and the number it
/// denotes unless that is above `cap`.
fn read_digits(buf: &[u8], pos: usize, cap: u64) -> (r: (usize, Option<u64>))
    requires
        pos <= buf.len(),
    ensures
        pos <= r.0 <= buf.len(),
        r.0 - pos == digit_run(buf@.skip(pos as int)),
        match r.1 {
            Some(value) => value <= cap && value == digits_value(
                buf@.skip(pos as int).take(r.0 - pos),
            ),
            None => digits_value(buf@.skip(pos as int).take(r.0 - pos)) > cap,
        },
{
    let mut end: usize = pos;
    let mut value: u64 = 0;
    let mut within: bool = true;
    assert(buf@.subrange(pos as int, pos as int) =~= Seq::<u8>::empty());
    while end < buf.len() && ZERO <= buf[end] && buf[end] <= NINE
        invariant
            pos <= end <= buf.len(),
            forall|j: int| pos <= j < end ==> is_digit(#[trigger] buf@[j]),
            within ==> value <= cap && value == digits_value(buf@.subrange(pos as int, end as int)),
            !within ==> digits_value(buf@.subrange(pos as int, end as int)) > cap,
        decreases buf.len() - end,
    {
        let digit: u8 = buf[end] - ZERO;
        proof {
            let longer = buf@.subrange(pos as int, end + 1);
            assert(longer.drop_last() =~= buf@.subrange(pos as int, end as int));
            assert(longer.last() == buf@[end as int]);
        }
        if within {
            let wide: u128 = (value as u128) * 10 + (digit as u128);
            if wide <= cap as u128 {
                value = wide as u64;
            } else {
                within = false;
            }
        }
        end += 1;
    }
    proof {
        let suffix = buf@.skip(pos as int);
        assert forall|i: int| 0 <= i < end - pos implies is_digit(#[trigger] suffix[i]) by {
            assert(suffix[i] == buf@[pos + i]);
        }
        lemma_digit_run_is(suffix, (end - pos) as nat);
        assert(suffix.take(end - pos) =~= buf@.subrange(pos as int, end as int));
    }
    if within {
        (end, Some(value))
    } else {
        (end, None)
    }
}

/// Reads the byte string at `pos`.
fn decode_bytes(buf: &[u8], pos: usize) -> (r: Result<(Vec<u8>, usize), DecodeError>)
    requires
        pos <= buf.len(),
    ensures
        match r {
            Ok((bytes, next)) => pos < next <= buf.len() && parse_bytes(buf@.skip(pos as int)) == Ok::<
                _,
                (DecodeErrorKind, nat),
            >((bytes@, buf@.skip(next as int))),
            Err(error) => parse_bytes(buf@.skip(pos as int)) is Err && reports(
                error,
                buf@.len(),
                parse_bytes(buf@.skip(pos as int))->Err_0,
            ),
        },
{
    let total = buf.len();
    let (end, length) = read_digits(buf, pos, (total - pos) as u64);
    if end == pos {
        if pos == total {
            return fail_at(DecodeErrorKind::UnexpectedEnd, total);
        }
        return fail_at(DecodeErrorKind::UnexpectedByte, pos);
    }
    if end == total {
        return fail_at(DecodeErrorKind::UnexpectedEnd, total);
    }
    if buf[end] != COLON {
        return fail_at(DecodeErrorKind::InvalidLength, end);
    }
    let start = end + 1;
    match length {
        None => fail_at(DecodeErrorKind::UnexpectedEnd, total),
        Some(len) => {
            if len > (total - start) as u64 {
                return fail_at(DecodeErrorKind::UnexpectedEnd, total);
            }
            let next = start + len as usize;
            let bytes = slice_to_vec(slice_subrange(buf, start, next));
            proof {
                let s = buf@.skip(pos as int);
                let body = s.skip(end - pos + 1);
                assert(body =~= buf@.skip(start as int));
                assert(body.take(len as int) =~= buf@.subrange(start as int, next as int));
                assert(body.skip(len as int) =~= buf@.skip(next as int));
            }
            Ok((bytes, next))
        },
    }
}

/// Reads what follows the `i` of an integer, from `pos` on.
fn decode_int(buf: &[u8], pos: usize) -> (r: Result<(i64, usize), DecodeError>)
    requires
        pos <= buf.len(),
    ensures
        match r {
            Ok((i, next)) => pos < next <= buf.len() && parse_int(buf@.skip(pos as int)) == Ok::<
                _,
                (DecodeErrorKind, nat),
            >((Document::Int(i), buf@.skip(next as int))),
            Err(error) => parse_int(buf@.skip(pos as int)) is Err && reports(
                error,
                buf@.len(),
                parse_int(buf@.skip(pos as int))->Err_0,
            ),
        },
{
    let total = buf.len();
    let negative = pos < total && buf[pos] == MINUS;
    let start = if negative {
        pos + 1
    } else {
        pos
    };
    proof {
        if negative {
            assert(buf@.skip(pos as int).skip(1) =~= buf@.skip(start as int));
        }
    }
    let (end, magnitude) = read_digits(buf, start, 0x8000_0000_0000_0000u64);
    if end == start {
        if start == total {
            return fail_at(DecodeErrorKind::UnexpectedEnd, total);
        }
        return fail_at(DecodeErrorKind::InvalidInteger, start);
    }
    if end == total {
        return fail_at(DecodeErrorKind::UnexpectedEnd, total);
    }
    if buf[end] != END {
        return fail_at(DecodeErrorKind::InvalidInteger, end);
    }
    if buf[start] == ZERO && (end - start > 1 || negative) {
        return fail_at(DecodeErrorKind::InvalidInteger, start);
    }
    proof {
        assert(buf@.skip(start as int).skip(end - start + 1) =~= buf@.skip(end + 1));
    }
    match magnitude {
        None => fail_at(DecodeErrorKind::InvalidInteger, pos),
        Some(m) => {
            if negative {
                if m == 0x8000_0000_0000_0000u64 {
                    Ok((i64::MIN, end + 1))
                } else {
                    Ok((-(m as i64), end + 1))
                }
            } else if m > 0x7fff_ffff_ffff_ffffu64 {
                fail_at(DecodeErrorKind::InvalidInteger, pos)
            } else {
                Ok((m as i64, end + 1))
            }
        },
    }
}

/// Reads the value at `pos`.
#[verifier::loop_isolation(false)]
fn decode_value(buf: &[u8], pos: usize) -> (r: Result<(Value, usize), DecodeError>)
    requires
        pos <= buf.len(),
    ensures
        match r {
            Ok((value, next)) => pos < next <= buf.len() && parse_value(buf@.skip(pos as int)) == Ok::<
                _,
                (DecodeErrorKind, nat),
            >((value@, buf@.skip(next as int))) && nests_within(value@, (next - pos - 1) as nat),
            Err(error) => parse_value(buf@.skip(pos as int)) is Err && reports(
                error,
                buf@.len(),
                parse_value(buf@.skip(pos as int))->Err_0,
            ),
        },
    decreases buf.len() - pos,
{
    let total = buf.len();
    if pos == total {
        return fail_at(DecodeErrorKind::UnexpectedEnd, total);
    }
    let lead = buf[pos];
    proof {
        assert(buf@.skip(pos as int).skip(1) =~= buf@.skip(pos + 1));
    }
    if lead == INT {
        match decode_int(buf, pos + 1) {
            Ok((i, next)) => Ok((Value::Int(i), next)),
            Err(error) => Err(error),
        }
    } else if ZERO <= lead && lead <= NINE {
        match decode_bytes(buf, pos) {
            Ok((bytes, next)) => Ok((Value::Bytes(bytes), next)),
            Err(error) => Err(error),
        }
    } else if lead == LIST {
        let mut items: Vec<Value> = Vec::new();
        let mut at: usize = pos + 1;
        assert(list_view(items@) =~= Seq::<Document>::empty());
        loop
            invariant
                pos < at <= total,
                total == buf.len(),
                parse_items(buf@.skip(pos + 1), Seq::empty()) == parse_items(
                    buf@.skip(at as int),
                    list_view(items@),
                ),
                forall|i: int|
                    0 <= i < items@.len() ==> nests_within(
                        #[trigger] list_view(items@)[i],
                        (at - pos - 1) as nat,
                    ),
            decreases total - at,
        {
            if at == total {
                return fail_at(DecodeErrorKind::UnexpectedEnd, total);
            }
            proof {
                assert(buf@.skip(at as int).skip(1) =~= buf@.skip(at + 1));
            }
            if buf[at] == END {
                return Ok((Value::List(items), at + 1));
            }
            match decode_value(buf, at) {
                Err(error) => {
                    return Err(error);
                },
                Ok((item, next)) => {
                    proof {
                        lemma_list_view_push(items@, item);
                        let longer = list_view(items@.push(item));
                        assert forall|i: int| 0 <= i < longer.len() implies nests_within(
                            #[trigger] longer[i],
                            (next - pos - 1) as nat,
                        ) by {
                            if i < items@.len() {
                                assert(longer[i] == list_view(items@)[i]);
                                lemma_nests_within_more(
                                    longer[i],
                                    (at - pos - 1) as nat,
                                    (next - pos - 1) as nat,
                                );
                            } else {
                                lemma_nests_within_more(
                                    longer[i],
                                    (next - at - 1) as nat,
                                    (next - pos - 1) as nat,
                                );
                            }
                        }
                    }
                    items.push(item);
                    at = next;
                },
            }
        }
    } else if lead == DICT {
        let mut dict = Dict::new();
        let mut at: usize = pos + 1;
        loop
            invariant
                pos < at <= total,
                total == buf.len(),
                parse_entries(buf@.skip(pos + 1), Map::empty()) == parse_entries(
                    buf@.skip(at as int),
                    dict@,
                ),
                dict@.dom().finite(),
                forall|key: Seq<u8>|
                    dict@.dom().contains(key) ==> nests_within(
                        #[trigger] dict@[key],
                        (at - pos - 1) as nat,
                    ),
            decreases total - at,
        {
            if at == total {
                return fail_at(DecodeErrorKind::UnexpectedEnd, total);
            }
            proof {
                assert(buf@.skip(at as int).skip(1) =~= buf@.skip(at + 1));
            }
            if buf[at] == END {
                return Ok((Value::Dict(dict), at + 1));
            }
            let (key, after_key) = match decode_bytes(buf, at) {
                Err(error) => {
                    return Err(error);
                },
                Ok(read) => read,
            };
            match decode_value(buf, after_key) {
                Err(error) => {
                    return Err(error);
                },
                Ok((value, next)) => {
                    let ghost before = dict@;
                    dict.insert(key, value);
                    proof {
                        assert forall|k: Seq<u8>| dict@.dom().contains(k) implies nests_within(
                            #[trigger] dict@[k],
                            (next - pos - 1) as nat,
                        ) by {
                            if k == key@ {
                                lemma_nests_within_more(
                                    dict@[k],
                                    (next - after_key - 1) as nat,
                                    (next - pos - 1) as nat,
                                );
                            } else {
                                assert(before.dom().contains(k));
                                lemma_nests_within_more(
                                    before[k],
                                    (at - pos - 1) as nat,
                                    (next - pos - 1) as nat,
                                );
                            }
                        }
                    }
                    at = next;
                },
            }
        }
    } else {
        fail_at(DecodeErrorKind::UnexpectedByte, pos)
    }
}

/// Decodes the one document that `buf` holds from its first byte to its
/// last.
pub fn decode(buf: &[u8]) -> (r: Result<Value, DecodeError>)
    ensures
        match decode_spec(buf@) {
            Ok(doc) => r is Ok && r->Ok_0@ == doc,
            Err(error) => r is Err && r->Err_0 == error,
        },
        r is Ok ==> nests_within(r->Ok_0@, (buf@.len() - 1) as nat),
{
    proof {
        assert(buf@.skip(0) =~= buf@);
    }
    match decode_value(buf, 0) {
        Err(error) => Err(error),
        Ok((value, next)) => {
            if next == buf.len() {
                Ok(value)
            } else {
                Err(DecodeError { kind: DecodeErrorKind::TrailingBytes, offset: next })
            }
        },
    }
}

} // verus!

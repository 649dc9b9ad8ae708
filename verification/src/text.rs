//! Byte strings as text.

use crate::decimal::{decimal, int_literal, push_decimal, push_int};
use vstd::prelude::*;
use vstd::utf8::{decode_utf8, valid_utf8};

verus! {

/// `String::push` appends one character to the end of the string.
pub assume_specification[ String::push ](s: &mut String, ch: char)
    ensures
        final(s)@ == old(s)@.push(ch),
;

/// The text whose characters have the codes that the bytes give.
pub open spec fn ascii_text(bytes: Seq<u8>) -> Seq<char> {
    Seq::new(bytes.len(), |i: int| bytes[i] as char)
}

/// The text whose characters have the codes that the bytes give.
pub fn ascii_string(bytes: &[u8]) -> (text: String)
    ensures
        text@ == ascii_text(bytes@),
{
    let mut text = String::new();
    let mut i: usize = 0;
    while i < bytes.len()
        invariant
            i <= bytes.len(),
            text@ == ascii_text(bytes@.take(i as int)),
        decreases bytes.len() - i,
    {
        text.push(bytes[i] as char);
        assert(text@ =~= ascii_text(bytes@.take(i + 1)));
        i += 1;
    }
    assert(bytes@.take(bytes.len() as int) =~= bytes@);
    text
}

/// The decimal numeral of `n` as text.
pub fn decimal_string(n: usize) -> (text: String)
    ensures
        text@ == ascii_text(decimal(n as nat)),
{
    let mut digits: Vec<u8> = Vec::new();
    push_decimal(&mut digits, n as u64);
    assert(digits@ =~= decimal(n as nat));
    ascii_string(digits.as_slice())
}

/// The minimal decimal form of `i` as text.
pub fn int_string(i: i64) -> (text: String)
    ensures
        text@ == ascii_text(int_literal(i as int)),
{
    let mut digits: Vec<u8> = Vec::new();
    push_int(&mut digits, i);
    assert(digits@ =~= int_literal(i as int));
    ascii_string(digits.as_slice())
}

/// The text that a byte string stands for when it is shown: its text where
/// the bytes are UTF-8, and a text with replacement characters in place of
/// what is not where they are not.
pub uninterp spec fn lossy_text(bytes: Seq<u8>) -> Seq<char>;

/// `String::from_utf8_lossy`, made into an owned string. The standard
/// library documents that it keeps valid UTF-8 as it is and puts U+FFFD in
/// place of each invalid sequence; the contract names that result and
/// states the first half.
#[verifier::external_body]
pub(crate) fn text_of(bytes: &[u8]) -> (text: String)
    ensures
        text@ == lossy_text(bytes@),
        valid_utf8(bytes@) ==> text@ == decode_utf8(bytes@),
{
    String::from_utf8_lossy(bytes).into_owned()
}

/// `std::str::from_utf8`, made into an owned string: the text of the bytes
/// where they are valid UTF-8, nothing where they are not.
#[verifier::external_body]
pub(crate) fn utf8_text(bytes: &[u8]) -> (text: Option<String>)
    ensures
        text is Some <==> valid_utf8(bytes@),
        text is Some ==> text->Some_0@ == decode_utf8(bytes@),
{
    match std::str::from_utf8(bytes) {
        Ok(text) => Some(text.to_string()),
        Err(_) => None,
    }
}

} // verus!

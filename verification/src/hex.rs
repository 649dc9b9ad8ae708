//! Lowercase hexadecimal text for byte strings.

use vstd::prelude::*;

verus! {

/// The lowercase hexadecimal digit for a value below sixteen.
pub open spec fn hex_char(nibble: int) -> char {
    if nibble < 10 {
        (0x30 + nibble) as char
    } else {
        (0x61 + nibble - 10) as char
    }
}

/// The hexadecimal text of a byte string: two digits per byte, high nibble
/// first, no separators.
pub open spec fn hex_text(bytes: Seq<u8>) -> Seq<char> {
    Seq::new(
        2 * bytes.len(),
        |j: int|
            if j % 2 == 0 {
                hex_char(bytes[j / 2] as int / 16)
            } else {
                hex_char(bytes[j / 2] as int % 16)
            },
    )
}

fn hex_digit(nibble: u8) -> (c: char)
    requires
        nibble < 16,
    ensures
        c == hex_char(nibble as int),
{
    if nibble < 10 {
        (0x30u8 + nibble) as char
    } else {
        (0x61u8 + (nibble - 10)) as char
    }
}

/// Convert bytes to their hexadecimal string representation.
pub fn to_hex(bytes: &[u8]) -> (text: String)
    ensures
        text@ == hex_text(bytes@),
{
    let mut text = String::new();
    let mut i: usize = 0;
    while i < bytes.len()
        invariant
            i <= bytes.len(),
            text@.len() == 2 * i,
            forall|j: int| 0 <= j < 2 * i ==> text@[j] == hex_text(bytes@)[j],
        decreases bytes.len() - i,
    {
        let byte = bytes[i];
        let high: u8 = byte / 16;
        let low: u8 = byte % 16;
        text.push(hex_digit(high));
        text.push(hex_digit(low));
        i += 1;
    }
    text
}

} // verus!

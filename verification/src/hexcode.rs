//! Raw sector data given as hexadecimal text.

use crate::error::D64Error;
use vstd::prelude::*;

verus! {

/// The error of the `hex` crate. Nothing of it is read: any failure to
/// decode is reported alike.
#[verifier::external_type_specification]
#[verifier::external_body]
pub struct ExFromHexError(hex::FromHexError);

/// The value of a hexadecimal digit, in either case; nothing for any other
/// character.
pub open spec fn hex_digit(c: char) -> Option<u8> {
    if '0' <= c <= '9' {
        Some((c as u8 - 0x30) as u8)
    } else if 'a' <= c <= 'f' {
        Some((c as u8 - 0x61 + 10) as u8)
    } else if 'A' <= c <= 'F' {
        Some((c as u8 - 0x41 + 10) as u8)
    } else {
        None
    }
}

/// Whether `text` spells bytes: an even number of hexadecimal digits and
/// nothing else.
pub open spec fn is_hex_text(text: Seq<char>) -> bool {
    text.len() % 2 == 0 && forall|i: int|
        0 <= i < text.len() ==> hex_digit(#[trigger] text[i]) is Some
}

/// The bytes that `text` spells: each pair of digits is one byte, the high
/// half first.
pub open spec fn hex_bytes(text: Seq<char>) -> Seq<u8> {
    Seq::new(
        (text.len() / 2) as nat,
        |i: int| (hex_digit(text[2 * i])->0 * 16 + hex_digit(text[2 * i + 1])->0) as u8,
    )
}

/// `hex::decode`, applied to a string. It succeeds exactly on an even
/// number of hexadecimal digits (a character outside ASCII is no digit, and
/// a text of digits has as many bytes as characters), and then gives one
/// byte for each pair of digits: sixteen times the value of the first plus
/// the value of the second.
#[verifier::external_body]
fn decode_hex(text: &str) -> (r: Result<Vec<u8>, hex::FromHexError>)
    ensures
        r is Ok <==> is_hex_text(text@),
        r matches Ok(bytes) ==> bytes@ == hex_bytes(text@),
{
    hex::decode(text)
}

/// The bytes that a text of hexadecimal digits spells, as a raw write to a
/// sector takes them. A text that is not an even number of hexadecimal
/// digits is refused with `InvalidTrackSector`.
pub fn bytes_from_hex(text: &str) -> (r: Result<Vec<u8>, D64Error>)
    ensures
        is_hex_text(text@) ==> (r matches Ok(bytes) && bytes@ == hex_bytes(text@)),
        !is_hex_text(text@) ==> (r matches Err(e) && e == D64Error::InvalidTrackSector),
{
    match decode_hex(text) {
        Ok(bytes) => Ok(bytes),
        Err(_) => Err(D64Error::InvalidTrackSector),
    }
}

} // verus!

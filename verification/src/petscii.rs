//! The text codec between native text and the 8-bit character set of the
//! image, and the padded text fields that hold names and labels.

use vstd::prelude::*;

verus! {

/// The byte that pads a name or label to the width of its field.
pub const FILL_BYTE: u8 = 0xA0;

/// Whether `c` lies in the band from the space to the underscore, which both
/// character sets share.
pub open spec fn in_shared_band(c: char) -> bool {
    ' ' <= c <= '_'
}

/// The byte that stands for `c` in the image: the shared band is kept, a
/// lowercase letter moves down by 32, anything else becomes a question mark.
pub open spec fn to_petscii(c: char) -> u8 {
    if ' ' <= c <= '_' {
        c as u8
    } else if 'a' <= c <= 'z' {
        (c as u8 - 32) as u8
    } else {
        0x3F
    }
}

/// The character that the byte `b` of the image stands for: the shared band
/// is kept, the bytes 0xC1 to 0xDA move down by 0x80, anything else becomes
/// a question mark.
pub open spec fn to_ascii(b: u8) -> char {
    if 0x20 <= b <= 0x5F {
        b as char
    } else if 0xC1 <= b <= 0xDA {
        (b - 0x80) as u8 as char
    } else {
        '?'
    }
}

/// A text, character by character, in the image's encoding.
pub open spec fn petscii_bytes(text: Seq<char>) -> Seq<u8> {
    Seq::new(text.len(), |i: int| to_petscii(text[i]))
}

/// Bytes of the image, byte by byte, as native text.
pub open spec fn ascii_text(bytes: Seq<u8>) -> Seq<char> {
    Seq::new(bytes.len(), |i: int| to_ascii(bytes[i]))
}

/// What is left of a character after it went into the image and came back:
/// itself inside the shared band, its capital for a lowercase letter, a
/// question mark otherwise.
pub open spec fn after_round_trip(c: char) -> char {
    if ' ' <= c <= '_' {
        c
    } else if 'a' <= c <= 'z' {
        (c as u8 - 32) as u8 as char
    } else {
        '?'
    }
}

/// The name as the directory gives it back: each character after its way
/// into the image and out again.
pub open spec fn stored_name(name: Seq<char>) -> Seq<char> {
    ascii_text(petscii_bytes(name))
}

/// Index of the first fill byte of `field` at or after `from`, or the length
/// of `field` where there is none.
pub open spec fn text_end(field: Seq<u8>, from: int) -> int
    decreases field.len() - from,
{
    if from < 0 || from >= field.len() {
        field.len() as int
    } else if field[from] == FILL_BYTE {
        from
    } else {
        text_end(field, from + 1)
    }
}

/// The text that a padded field holds: its bytes up to the first fill byte,
/// decoded.
pub open spec fn field_text(field: Seq<u8>) -> Seq<char> {
    ascii_text(field.take(text_end(field, 0)))
}

/// `bytes` padded with the fill byte to `width` bytes.
pub open spec fn padded(bytes: Seq<u8>, width: int) -> Seq<u8> {
    Seq::new(width as nat, |i: int| if i < bytes.len() { bytes[i] } else { FILL_BYTE })
}

/// `String::push` of the standard library: the string afterwards is the
/// string before with `c` as one more character at its end.
pub assume_specification[ String::push ](s: &mut String, c: char)
    ensures
        final(s)@ == old(s)@.push(c),
;

/// The image byte for one native character.
pub fn char_to_petscii(c: char) -> (b: u8)
    ensures
        b == to_petscii(c),
{
    if ' ' <= c && c <= '_' {
        c as u8
    } else if 'a' <= c && c <= 'z' {
        c as u8 - 32
    } else {
        0x3F
    }
}

/// The native character for one image byte.
pub fn petscii_to_char(b: u8) -> (c: char)
    ensures
        c == to_ascii(b),
{
    if 0x20 <= b && b <= 0x5F {
        b as char
    } else if 0xC1 <= b && b <= 0xDA {
        (b - 0x80) as char
    } else {
        '?'
    }
}

/// Decodes bytes of the image into native text, one character per byte.
pub fn petscii_to_ascii(petscii: &[u8]) -> (text: String)
    ensures
        text@ == ascii_text(petscii@),
{
    let mut text = String::new();
    let mut i: usize = 0;
    while i < petscii.len()
        invariant
            i <= petscii@.len(),
            text@ == ascii_text(petscii@.take(i as int)),
        decreases petscii@.len() - i,
    {
        text.push(petscii_to_char(petscii[i]));
        i += 1;
        assert(text@ =~= ascii_text(petscii@.take(i as int)));
    }
    assert(petscii@.take(i as int) =~= petscii@);
    text
}

/// Encodes native text for the image, one byte per character.
pub fn ascii_to_petscii(ascii: &str) -> (bytes: Vec<u8>)
    ensures
        bytes@ == petscii_bytes(ascii@),
{
    let mut bytes: Vec<u8> = Vec::new();
    for c in it: ascii.chars()
        invariant
            bytes@ == petscii_bytes(ascii@.take(it.index() as int)),
            it.seq() == ascii@,
    {
        bytes.push(char_to_petscii(c));
        assert(bytes@ =~= petscii_bytes(ascii@.take(it.index() + 1)));
    }
    assert(ascii@.take(ascii@.len() as int) =~= ascii@);
    bytes
}

/// Decodes a padded text field: the bytes before the first fill byte.
pub fn decode_field(field: &[u8]) -> (text: String)
    ensures
        text@ == field_text(field@),
{
    let mut end: usize = 0;
    while end < field.len() && field[end] != FILL_BYTE
        invariant
            end <= field@.len(),
            text_end(field@, 0) == text_end(field@, end as int),
        decreases field@.len() - end,
    {
        end += 1;
    }
    petscii_to_ascii(vstd::slice::slice_subrange(field, 0, end))
}

/// Encoding a text and decoding the result gives the text back, provided
/// every character of it lies in the shared band.
pub proof fn lemma_round_trip(text: Seq<char>)
    requires
        forall|i: int| 0 <= i < text.len() ==> in_shared_band(#[trigger] text[i]),
    ensures
        ascii_text(petscii_bytes(text)) == text,
{
    assert(ascii_text(petscii_bytes(text)) =~= text);
}

/// Encoding any text and decoding the result changes each character as
/// `after_round_trip` says, and nothing else.
pub proof fn lemma_round_trip_of_any_text(text: Seq<char>)
    ensures
        ascii_text(petscii_bytes(text)) == Seq::new(
            text.len(),
            |i: int| after_round_trip(text[i]),
        ),
{
    assert(ascii_text(petscii_bytes(text)) =~= Seq::new(
        text.len(),
        |i: int| after_round_trip(text[i]),
    ));
}

/// No character is encoded as the fill byte, so an encoded name never ends
/// before its last character.
pub proof fn lemma_encoded_text_has_no_fill(text: Seq<char>)
    ensures
        forall|i: int| 0 <= i < text.len() ==> #[trigger] petscii_bytes(text)[i] != FILL_BYTE,
{
}

/// In a padded field the text ends where the bytes that were padded end.
proof fn lemma_text_end_of_padded(bytes: Seq<u8>, width: int, from: int)
    requires
        bytes.len() <= width,
        0 <= from <= bytes.len(),
        forall|i: int| 0 <= i < bytes.len() ==> #[trigger] bytes[i] != FILL_BYTE,
    ensures
        text_end(padded(bytes, width), from) == bytes.len(),
    decreases bytes.len() - from,
{
    if from < bytes.len() {
        lemma_text_end_of_padded(bytes, width, from + 1);
    }
}

/// A field that was padded gives back what was padded: bytes without a
/// fill byte among them, padded to the width of the field, decode to the
/// text of those bytes.
pub proof fn lemma_field_text_of_padded(bytes: Seq<u8>, width: int)
    requires
        bytes.len() <= width,
        forall|i: int| 0 <= i < bytes.len() ==> #[trigger] bytes[i] != FILL_BYTE,
    ensures
        text_end(padded(bytes, width), 0) == bytes.len(),
        field_text(padded(bytes, width)) == ascii_text(bytes),
{
    lemma_text_end_of_padded(bytes, width, 0);
    assert(padded(bytes, width).take(bytes.len() as int) =~= bytes);
}

} // verus!

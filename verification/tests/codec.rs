use d64lib::petscii::{char_to_petscii, petscii_to_char, FILL_BYTE};
use d64lib::{ascii_to_petscii, petscii_to_ascii};

#[test]
fn shared_band_is_kept_in_both_directions() {
    let mut code: u8 = 0x20;
    while code <= 0x5F {
        let c: char = code as char;
        assert_eq!(char_to_petscii(c), code);
        assert_eq!(petscii_to_char(code), c);
        code += 1;
    }
}

#[test]
fn lowercase_letters_move_down_by_32() {
    assert_eq!(char_to_petscii('a'), 0x41);
    assert_eq!(char_to_petscii('z'), 0x5A);
    assert_eq!(ascii_to_petscii("hello"), vec![0x48, 0x45, 0x4C, 0x4C, 0x4F]);
}

#[test]
fn other_characters_become_question_marks() {
    assert_eq!(char_to_petscii('{'), 0x3F);
    assert_eq!(char_to_petscii('`'), 0x3F);
    assert_eq!(char_to_petscii('\n'), 0x3F);
    assert_eq!(char_to_petscii('é'), 0x3F);
    assert_eq!(ascii_to_petscii("a{é"), vec![0x41, 0x3F, 0x3F]);
}

#[test]
fn high_letters_move_down_by_0x80() {
    assert_eq!(petscii_to_char(0xC1), 'A');
    assert_eq!(petscii_to_char(0xDA), 'Z');
    assert_eq!(petscii_to_ascii(&[0xC8, 0xC9]), "HI");
}

#[test]
fn other_bytes_become_question_marks() {
    assert_eq!(petscii_to_char(0x00), '?');
    assert_eq!(petscii_to_char(0x1F), '?');
    assert_eq!(petscii_to_char(0x60), '?');
    assert_eq!(petscii_to_char(0xC0), '?');
    assert_eq!(petscii_to_char(0xDB), '?');
    assert_eq!(petscii_to_char(0xFF), '?');
    assert_eq!(petscii_to_char(FILL_BYTE), '?');
}

#[test]
fn round_trip_keeps_text_of_the_shared_band() {
    let text = " !\"#$%&'()*+,-./0123456789:;<=>?@ABCDEFGHIJKLMNOPQRSTUVWXYZ[\\]^_";
    assert_eq!(petscii_to_ascii(&ascii_to_petscii(text)), text);
}

#[test]
fn round_trip_turns_lowercase_into_capitals() {
    assert_eq!(petscii_to_ascii(&ascii_to_petscii("a")), "A");
    assert_eq!(petscii_to_ascii(&ascii_to_petscii("Hello, World!")), "HELLO, WORLD!");
}

#[test]
fn round_trip_loses_what_has_no_byte() {
    assert_eq!(petscii_to_ascii(&ascii_to_petscii("x~y|z")), "X?Y?Z");
}

#[test]
fn empty_text_and_empty_bytes() {
    assert_eq!(ascii_to_petscii(""), Vec::<u8>::new());
    assert_eq!(petscii_to_ascii(&[]), "");
}

#[test]
fn decoding_appends_every_character_in_order() {
    assert_eq!(petscii_to_ascii(&[0x41, 0x42, 0x43, 0x20, 0x31]), "ABC 1");
}

use d64lib::{bytes_from_hex, D64Error, D64};

#[test]
fn hex_text_spells_bytes() {
    assert_eq!(bytes_from_hex("48656c6c6f"), Ok(vec![0x48, 0x65, 0x6C, 0x6C, 0x6F]));
    assert_eq!(bytes_from_hex("00ff10a5"), Ok(vec![0x00, 0xFF, 0x10, 0xA5]));
    assert_eq!(bytes_from_hex(""), Ok(Vec::<u8>::new()));
}

#[test]
fn hex_digits_count_in_either_case() {
    assert_eq!(bytes_from_hex("f9b4ca"), Ok(vec![0xF9, 0xB4, 0xCA]));
    assert_eq!(bytes_from_hex("F9B4CA"), Ok(vec![0xF9, 0xB4, 0xCA]));
    assert_eq!(bytes_from_hex("f9B4Ca"), Ok(vec![0xF9, 0xB4, 0xCA]));
    assert_eq!(
        bytes_from_hex("0123456789abcdef"),
        Ok(vec![0x01, 0x23, 0x45, 0x67, 0x89, 0xAB, 0xCD, 0xEF])
    );
}

#[test]
fn odd_number_of_digits_is_refused() {
    assert_eq!(bytes_from_hex("123"), Err(D64Error::InvalidTrackSector));
    assert_eq!(bytes_from_hex("0"), Err(D64Error::InvalidTrackSector));
}

#[test]
fn anything_but_digits_is_refused() {
    assert_eq!(bytes_from_hex("fo"), Err(D64Error::InvalidTrackSector));
    assert_eq!(bytes_from_hex("0g"), Err(D64Error::InvalidTrackSector));
    assert_eq!(bytes_from_hex("12 34"), Err(D64Error::InvalidTrackSector));
    assert_eq!(bytes_from_hex("0x12"), Err(D64Error::InvalidTrackSector));
    assert_eq!(bytes_from_hex("é"), Err(D64Error::InvalidTrackSector));
    assert_eq!(bytes_from_hex("éé"), Err(D64Error::InvalidTrackSector));
    assert_eq!(bytes_from_hex("/:"), Err(D64Error::InvalidTrackSector));
    assert_eq!(bytes_from_hex("@G"), Err(D64Error::InvalidTrackSector));
    assert_eq!(bytes_from_hex("`g"), Err(D64Error::InvalidTrackSector));
}

#[test]
fn sector_written_from_hex_text() {
    let mut image = D64::new(35).unwrap();
    let mut text = String::new();
    for i in 0..256u32 {
        text.push_str(&format!("{:02x}", i));
    }
    let block = bytes_from_hex(&text).unwrap();
    assert_eq!(block.len(), 256);
    image.write_sector(2, 3, &block).unwrap();
    let sector = image.read_sector(2, 3).unwrap();
    for i in 0..256usize {
        assert_eq!(sector[i], i as u8);
    }
}

use d64lib::directory::{chars_of, CLOSED_FILE};
use d64lib::{D64Error, D64};

fn formatted() -> D64 {
    let mut image = D64::new(35).unwrap();
    image.format("WORK", "01").unwrap();
    image
}

fn entry(name: &[u8], file_type: u8, track: u8, sector: u8) -> [u8; 32] {
    let mut slot = [0u8; 32];
    slot[2] = file_type;
    slot[3] = track;
    slot[4] = sector;
    for i in 0..16usize {
        slot[5 + i] = if i < name.len() { name[i] } else { 0xA0 };
    }
    slot
}

fn set_link(image: &mut D64, sector: u8, next: (u8, u8)) {
    let mut block = image.read_sector(18, sector).unwrap().to_vec();
    block[0] = next.0;
    block[1] = next.1;
    image.write_sector(18, sector, &block).unwrap();
}

fn put_slot(image: &mut D64, sector: u8, slot: usize, bytes: &[u8; 32]) {
    let mut block = image.read_sector(18, sector).unwrap().to_vec();
    block[32 * slot + 2..32 * slot + 32].copy_from_slice(&bytes[2..]);
    image.write_sector(18, sector, &block).unwrap();
}

#[test]
fn fresh_directory_is_one_sector_without_files() {
    let image = formatted();
    assert_eq!(image.directory_sectors(), (vec![1u8], true));
    assert_eq!(image.list_files(), Ok(Vec::<String>::new()));
}

#[test]
fn new_entry_has_type_start_and_padded_name() {
    let image = formatted();
    let slot = image.create_dir_entry("game one", 17, 3).unwrap();
    assert_eq!(&slot[0..2], &[0, 0]);
    assert_eq!(slot[2], 0x82);
    assert_eq!(slot[2], CLOSED_FILE);
    assert_eq!(slot[3], 17);
    assert_eq!(slot[4], 3);
    assert_eq!(&slot[5..13], b"GAME ONE");
    assert_eq!(&slot[13..21], &[0xA0; 8]);
    assert_eq!(&slot[21..32], &[0; 11]);
}

#[test]
fn new_entry_takes_a_name_of_16_characters_but_not_of_17() {
    let image = formatted();
    let slot = image.create_dir_entry("0123456789ABCDEF", 1, 0).unwrap();
    assert_eq!(&slot[5..21], b"0123456789ABCDEF");
    assert_eq!(
        image.create_dir_entry("0123456789ABCDEFG", 1, 0),
        Err(D64Error::InvalidTrackSector)
    );
}

#[test]
fn entries_fill_the_slots_in_order() {
    let mut image = formatted();
    image.write_dir_entry(entry(b"ONE", 0x82, 1, 0)).unwrap();
    image.write_dir_entry(entry(b"TWO", 0x82, 1, 1)).unwrap();
    let sector = image.read_sector(18, 1).unwrap();
    assert_eq!(&sector[0..32], &entry(b"ONE", 0x82, 1, 0)[..]);
    assert_eq!(&sector[32..64], &entry(b"TWO", 0x82, 1, 1)[..]);
    assert!(sector[64..].iter().all(|&b| b == 0));
    assert_eq!(image.list_files(), Ok(vec!["ONE".to_string(), "TWO".to_string()]));
}

#[test]
fn entry_goes_to_the_first_empty_slot_even_between_files() {
    let mut image = formatted();
    put_slot(&mut image, 1, 0, &entry(b"A", 0x82, 1, 0));
    put_slot(&mut image, 1, 2, &entry(b"C", 0x82, 1, 2));
    image.write_dir_entry(entry(b"B", 0x82, 1, 1)).unwrap();
    assert_eq!(
        image.list_files(),
        Ok(vec!["A".to_string(), "B".to_string(), "C".to_string()])
    );
}

#[test]
fn ninth_entry_does_not_fit_one_sector() {
    let mut image = formatted();
    for i in 0..8u8 {
        assert_eq!(image.write_dir_entry(entry(&[0x41 + i], 0x82, 1, i)), Ok(()));
    }
    let before = image.data.clone();
    assert_eq!(image.write_dir_entry(entry(b"NINTH", 0x82, 1, 8)), Err(D64Error::DiskFull));
    assert_eq!(image.data, before);
    assert_eq!(image.list_files().unwrap().len(), 8);
}

#[test]
fn entries_go_on_in_the_next_sector_of_the_chain() {
    let mut image = formatted();
    for i in 0..8u8 {
        put_slot(&mut image, 1, i as usize, &entry(&[0x41 + i], 0x82, 1, i));
    }
    set_link(&mut image, 1, (18, 4));
    assert_eq!(image.directory_sectors(), (vec![1u8, 4u8], true));
    image.write_dir_entry(entry(b"NINTH", 0x82, 1, 8)).unwrap();
    let sector = image.read_sector(18, 4).unwrap();
    assert_eq!(&sector[0..32], &entry(b"NINTH", 0x82, 1, 8)[..]);
    let names = image.list_files().unwrap();
    assert_eq!(names.len(), 9);
    assert_eq!(names[8], "NINTH");
    assert_eq!(image.find_file("NINTH"), Ok((1, 8)));
}

#[test]
fn scratched_and_empty_slots_are_not_listed() {
    let mut image = formatted();
    put_slot(&mut image, 1, 0, &entry(b"GONE", 0x80, 1, 0));
    put_slot(&mut image, 1, 1, &entry(b"ALSO GONE", 0x08, 1, 1));
    put_slot(&mut image, 1, 3, &entry(b"SEQ", 0x81, 1, 2));
    put_slot(&mut image, 1, 5, &entry(b"PRG", 0x82, 1, 3));
    put_slot(&mut image, 1, 7, &entry(b"OPEN", 0x02, 1, 4));
    assert_eq!(
        image.list_files(),
        Ok(vec!["SEQ".to_string(), "PRG".to_string(), "OPEN".to_string()])
    );
    assert_eq!(image.find_file("GONE"), Err(D64Error::FileNotFound));
    assert_eq!(image.find_file("PRG"), Ok((1, 3)));
}

#[test]
fn name_without_padding_uses_all_16_bytes() {
    let mut image = formatted();
    put_slot(&mut image, 1, 0, &entry(b"0123456789ABCDEF", 0x82, 2, 5));
    assert_eq!(image.list_files(), Ok(vec!["0123456789ABCDEF".to_string()]));
    assert_eq!(image.find_file("0123456789ABCDEF"), Ok((2, 5)));
}

#[test]
fn name_ends_at_the_first_fill_byte() {
    let mut image = formatted();
    let mut slot = entry(b"AB", 0x82, 2, 5);
    slot[5 + 4] = 0x43;
    put_slot(&mut image, 1, 0, &slot);
    assert_eq!(image.list_files(), Ok(vec!["AB".to_string()]));
}

#[test]
fn find_gives_the_first_of_two_files_of_one_name() {
    let mut image = formatted();
    put_slot(&mut image, 1, 1, &entry(b"SAME", 0x82, 3, 1));
    put_slot(&mut image, 1, 4, &entry(b"SAME", 0x82, 4, 2));
    assert_eq!(image.find_file("SAME"), Ok((3, 1)));
}

#[test]
fn find_trims_the_spaces_around_a_stored_name() {
    let mut image = formatted();
    put_slot(&mut image, 1, 0, &entry(b"  PADDED  ", 0x82, 5, 6));
    put_slot(&mut image, 1, 1, &entry(b"   ", 0x82, 7, 8));
    assert_eq!(image.find_file("PADDED"), Ok((5, 6)));
    assert_eq!(image.find_file("  PADDED  "), Err(D64Error::FileNotFound));
    assert_eq!(image.find_file(""), Ok((7, 8)));
    assert_eq!(image.list_files().unwrap()[0], "  PADDED  ");
}

#[test]
fn find_keeps_the_spaces_inside_a_name() {
    let mut image = formatted();
    put_slot(&mut image, 1, 0, &entry(b"A  B", 0x82, 5, 6));
    assert_eq!(image.find_file("A  B"), Ok((5, 6)));
    assert_eq!(image.find_file("A B"), Err(D64Error::FileNotFound));
}

#[test]
fn find_compares_decoded_text() {
    let mut image = formatted();
    put_slot(&mut image, 1, 0, &entry(&[0xC1, 0xC2, 0x00], 0x82, 9, 9));
    assert_eq!(image.find_file("AB?"), Ok((9, 9)));
    assert_eq!(image.find_file("ab?"), Err(D64Error::FileNotFound));
}

#[test]
fn find_reports_a_missing_file() {
    let image = formatted();
    assert_eq!(image.find_file("NOTHING"), Err(D64Error::FileNotFound));
}

#[test]
fn link_back_to_the_first_sector_ends_the_chain() {
    let mut image = formatted();
    set_link(&mut image, 1, (18, 1));
    assert_eq!(image.directory_sectors(), (vec![1u8], true));
    assert_eq!(image.list_files(), Ok(Vec::<String>::new()));
    set_link(&mut image, 1, (18, 2));
    set_link(&mut image, 2, (18, 1));
    assert_eq!(image.directory_sectors(), (vec![1u8, 2u8], true));
}

#[test]
fn link_with_track_0_ends_the_chain_whatever_its_sector() {
    let mut image = formatted();
    set_link(&mut image, 1, (0, 0xFF));
    assert_eq!(image.directory_sectors(), (vec![1u8], true));
    assert_eq!(image.write_dir_entry(entry(b"X", 0x82, 1, 0)), Ok(()));
}

#[test]
fn link_that_leaves_track_18_is_corruption() {
    let mut image = formatted();
    set_link(&mut image, 1, (17, 0));
    assert_eq!(image.directory_sectors(), (vec![1u8], false));
    assert_eq!(image.list_files(), Err(D64Error::Corrupt));
    assert_eq!(image.find_file("X"), Err(D64Error::Corrupt));
}

#[test]
fn link_beyond_the_sectors_of_track_18_is_corruption() {
    let mut image = formatted();
    set_link(&mut image, 1, (18, 19));
    assert_eq!(image.list_files(), Err(D64Error::Corrupt));
    set_link(&mut image, 1, (18, 18));
    assert_eq!(image.directory_sectors(), (vec![1u8, 18u8], true));
}

#[test]
fn link_into_the_chain_is_corruption() {
    let mut image = formatted();
    set_link(&mut image, 1, (18, 2));
    set_link(&mut image, 2, (18, 3));
    set_link(&mut image, 3, (18, 2));
    assert_eq!(image.directory_sectors(), (vec![1u8, 2u8, 3u8], false));
    assert_eq!(image.list_files(), Err(D64Error::Corrupt));
    set_link(&mut image, 3, (18, 3));
    assert_eq!(image.list_files(), Err(D64Error::Corrupt));
}

#[test]
fn file_before_the_corruption_is_still_found() {
    let mut image = formatted();
    put_slot(&mut image, 1, 3, &entry(b"EARLY", 0x82, 6, 6));
    set_link(&mut image, 1, (18, 2));
    set_link(&mut image, 2, (19, 0));
    assert_eq!(image.find_file("EARLY"), Ok((6, 6)));
    assert_eq!(image.find_file("LATE"), Err(D64Error::Corrupt));
}

#[test]
fn full_directory_with_a_broken_chain_is_corruption() {
    let mut image = formatted();
    for i in 0..8u8 {
        put_slot(&mut image, 1, i as usize, &entry(&[0x41 + i], 0x82, 1, i));
    }
    set_link(&mut image, 1, (1, 0));
    let before = image.data.clone();
    assert_eq!(image.write_dir_entry(entry(b"X", 0x82, 1, 9)), Err(D64Error::Corrupt));
    assert_eq!(image.data, before);
}

#[test]
fn empty_slot_before_the_corruption_is_still_used() {
    let mut image = formatted();
    set_link(&mut image, 1, (1, 0));
    assert_eq!(image.write_dir_entry(entry(b"X", 0x82, 1, 9)), Ok(()));
}

#[test]
fn chain_through_all_19_sectors_is_walked_once() {
    let mut image = formatted();
    let order: [u8; 19] = [1, 2, 3, 4, 5, 6, 7, 8, 9, 10, 11, 12, 13, 14, 15, 16, 17, 18, 0];
    for i in 0..18usize {
        set_link(&mut image, order[i], (18, order[i + 1]));
    }
    let (chain, sound) = image.directory_sectors();
    assert_eq!(chain, order.to_vec());
    assert!(sound);
}

#[test]
fn text_is_split_into_its_characters() {
    assert_eq!(chars_of("aé!"), vec!['a', 'é', '!']);
    assert_eq!(chars_of(""), Vec::<char>::new());
}

#[test]
fn entry_in_the_first_slot_leaves_the_link_of_the_sector() {
    let mut image = formatted();
    set_link(&mut image, 1, (18, 4));
    let mut slot = entry(b"HEAD", 0x82, 1, 0);
    slot[0] = 0x55;
    slot[1] = 0x66;
    image.write_dir_entry(slot).unwrap();
    let sector = image.read_sector(18, 1).unwrap();
    assert_eq!(&sector[0..2], &[18, 4]);
    assert_eq!(&sector[2..32], &slot[2..]);
    assert_eq!(image.directory_sectors(), (vec![1u8, 4u8], true));
}

#[test]
fn entry_in_a_later_slot_leaves_the_two_bytes_before_it() {
    let mut image = formatted();
    put_slot(&mut image, 1, 0, &entry(b"A", 0x82, 1, 0));
    let mut block = image.read_sector(18, 1).unwrap().to_vec();
    block[32] = 0x11;
    block[33] = 0x22;
    image.write_sector(18, 1, &block).unwrap();
    image.write_dir_entry(entry(b"B", 0x82, 1, 1)).unwrap();
    let sector = image.read_sector(18, 1).unwrap();
    assert_eq!(&sector[32..34], &[0x11, 0x22]);
    assert_eq!(&sector[34..64], &entry(b"B", 0x82, 1, 1)[2..]);
}

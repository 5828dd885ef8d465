use d64lib::{D64Error, D64};

fn formatted() -> D64 {
    let mut image = D64::new(35).unwrap();
    image.format("TEST DISK", "2A").unwrap();
    image
}

fn bytes(len: usize) -> Vec<u8> {
    let mut content: Vec<u8> = Vec::new();
    for i in 0..len {
        content.push((i * 7 + 3) as u8);
    }
    content
}

fn set_link(image: &mut D64, address: (u8, u8), next: (u8, u8)) {
    let mut block = image.read_sector(address.0, address.1).unwrap().to_vec();
    block[0] = next.0;
    block[1] = next.1;
    image.write_sector(address.0, address.1, &block).unwrap();
}

#[test]
fn formatted_disk_with_one_file() {
    let mut image = D64::new(35).unwrap();
    image.format("TEST DISK", "2A").unwrap();
    image.insert_file("TEST FILE", b"Hello, World!").unwrap();
    assert_eq!(image.list_files(), Ok(vec!["TEST FILE".to_string()]));
    let content = image.extract_file("TEST FILE").unwrap();
    assert_eq!(content.len(), 13);
    assert_eq!(content, b"Hello, World!");
    let map = image.read_bam().unwrap();
    assert_eq!(map.get_disk_name(), "TEST DISK");
    assert_eq!(map.get_disk_id(), "2A");
}

#[test]
fn two_files_are_listed_in_the_order_of_insertion() {
    let mut image = formatted();
    image.insert_file("FIRST", b"one").unwrap();
    image.insert_file("SECOND", b"two").unwrap();
    assert_eq!(
        image.list_files(),
        Ok(vec!["FIRST".to_string(), "SECOND".to_string()])
    );
    let first = image.trace_file("FIRST").unwrap();
    assert!(!first.is_empty());
    assert_eq!(first, vec![(1, 0)]);
    assert_eq!(first[0], image.find_file("FIRST").unwrap());
    assert_eq!(image.trace_file("SECOND"), Ok(vec![(1, 1)]));
    assert_eq!(image.extract_file("FIRST").unwrap(), b"one");
    assert_eq!(image.extract_file("SECOND").unwrap(), b"two");
}

#[test]
fn ninth_file_does_not_fit_the_directory() {
    let mut image = formatted();
    let names = ["A", "B", "C", "D", "E", "F", "G", "H"];
    for name in names {
        assert_eq!(image.insert_file(name, b"x"), Ok(()));
    }
    let before = image.data.clone();
    assert_eq!(image.insert_file("I", b"x"), Err(D64Error::DiskFull));
    assert_eq!(image.data, before);
    assert_eq!(image.list_files().unwrap().len(), 8);
    for name in names {
        assert_eq!(image.extract_file(name).unwrap(), b"x");
    }
}

#[test]
fn one_sector_file_is_a_terminal_sector_with_its_length() {
    let mut image = formatted();
    image.insert_file("F", b"Hello, World!").unwrap();
    let sector = image.read_sector(1, 0).unwrap();
    assert_eq!(sector[0], 0);
    assert_eq!(sector[1], 13);
    assert_eq!(&sector[2..15], b"Hello, World!");
    assert!(sector[15..].iter().all(|&b| b == 0));
}

#[test]
fn content_comes_back_whatever_its_length() {
    for len in [0usize, 1, 253, 254, 255, 507, 508, 509, 1000, 5334, 5335, 20000] {
        let mut image = formatted();
        let content = bytes(len);
        image.insert_file("DATA", &content).unwrap();
        assert_eq!(image.extract_file("DATA").unwrap(), content);
        let expected: usize = if len == 0 { 1 } else { (len + 253) / 254 };
        assert_eq!(image.trace_file("DATA").unwrap().len(), expected);
    }
}

#[test]
fn empty_file_takes_one_sector() {
    let mut image = formatted();
    image.insert_file("EMPTY", b"").unwrap();
    assert_eq!(image.trace_file("EMPTY"), Ok(vec![(1, 0)]));
    assert_eq!(image.extract_file("EMPTY"), Ok(Vec::<u8>::new()));
    assert_eq!(image.read_bam().unwrap().get_free_sectors_count(1), Ok(20));
    assert_eq!(image.find_free_sector(), Ok((1, 1)));
}

#[test]
fn chain_links_each_sector_to_the_next() {
    let mut image = formatted();
    let content = bytes(600);
    image.insert_file("THREE", &content).unwrap();
    assert_eq!(image.trace_file("THREE"), Ok(vec![(1, 0), (1, 1), (1, 2)]));
    let first = image.read_sector(1, 0).unwrap();
    assert_eq!(&first[0..2], &[1, 1]);
    assert_eq!(&first[2..], &content[0..254]);
    let second = image.read_sector(1, 1).unwrap();
    assert_eq!(&second[0..2], &[1, 2]);
    assert_eq!(&second[2..], &content[254..508]);
    let third = image.read_sector(1, 2).unwrap();
    assert_eq!(&third[0..2], &[0, 92]);
    assert_eq!(&third[2..94], &content[508..600]);
    assert!(third[94..].iter().all(|&b| b == 0));
}

#[test]
fn last_sector_of_a_full_multiple_holds_254_bytes() {
    let mut image = formatted();
    let content = bytes(508);
    image.insert_file("EVEN", &content).unwrap();
    assert_eq!(image.trace_file("EVEN"), Ok(vec![(1, 0), (1, 1)]));
    let second = image.read_sector(1, 1).unwrap();
    assert_eq!(&second[0..2], &[0, 254]);
    assert_eq!(&second[2..], &content[254..508]);
}

#[test]
fn chain_runs_on_into_the_next_track() {
    let mut image = formatted();
    let content = bytes(254 * 22);
    image.insert_file("LONG", &content).unwrap();
    let chain = image.trace_file("LONG").unwrap();
    assert_eq!(chain.len(), 22);
    assert_eq!(chain[20], (1, 20));
    assert_eq!(chain[21], (2, 0));
    let map = image.read_bam().unwrap();
    assert_eq!(map.get_free_sectors_count(1), Ok(0));
    assert_eq!(map.get_free_sectors_count(2), Ok(20));
}

#[test]
fn chain_passes_over_the_directory_track() {
    let mut image = formatted();
    let content = bytes(254 * (17 * 21 + 2));
    image.insert_file("BIG", &content).unwrap();
    let chain = image.trace_file("BIG").unwrap();
    assert_eq!(chain[17 * 21 - 1], (17, 20));
    assert_eq!(chain[17 * 21], (19, 0));
    assert_eq!(chain[17 * 21 + 1], (19, 1));
    assert!(chain.iter().all(|address| address.0 != 18));
    assert_eq!(image.extract_file("BIG").unwrap(), content);
    assert_eq!(image.list_files(), Ok(vec!["BIG".to_string()]));
}

#[test]
fn inserting_marks_every_sector_of_the_chain_allocated() {
    let mut image = formatted();
    image.insert_file("A", &bytes(300)).unwrap();
    let map = image.read_bam().unwrap();
    assert_eq!(map.get_free_sectors_count(1), Ok(19));
    assert_eq!(map.bitmap[0], [0xFC, 0xFF, 0xFF]);
    assert_eq!(map.find_free_sector(1), Ok(Some(2)));
}

#[test]
fn files_never_share_a_sector() {
    let mut image = formatted();
    let first = bytes(1000);
    let second: Vec<u8> = bytes(700).iter().map(|b| b ^ 0xFF).collect();
    image.insert_file("FIRST", &first).unwrap();
    image.insert_file("SECOND", &second).unwrap();
    let a = image.trace_file("FIRST").unwrap();
    let b = image.trace_file("SECOND").unwrap();
    assert_eq!(a, vec![(1, 0), (1, 1), (1, 2), (1, 3)]);
    assert_eq!(b, vec![(1, 4), (1, 5), (1, 6)]);
    assert!(a.iter().all(|address| !b.contains(address)));
    assert_eq!(image.extract_file("FIRST").unwrap(), first);
    assert_eq!(image.extract_file("SECOND").unwrap(), second);
}

#[test]
fn inserting_uses_sectors_that_were_freed() {
    let mut image = formatted();
    image.insert_file("A", &bytes(254 * 3)).unwrap();
    image.free_sector(1, 1).unwrap();
    image.insert_file("B", &bytes(300)).unwrap();
    assert_eq!(image.trace_file("B"), Ok(vec![(1, 1), (1, 3)]));
}

#[test]
fn whole_disk_can_be_filled_and_then_is_full() {
    let mut image = formatted();
    let content = bytes(254 * 664);
    image.insert_file("ALL", &content).unwrap();
    assert_eq!(image.extract_file("ALL").unwrap(), content);
    assert_eq!(image.find_free_sector(), Err(D64Error::DiskFull));
    let before = image.data.clone();
    assert_eq!(image.insert_file("MORE", b""), Err(D64Error::DiskFull));
    assert_eq!(image.data, before);
}

#[test]
fn file_larger_than_the_free_space_leaves_the_image_as_it_was() {
    let mut image = formatted();
    image.insert_file("SMALL", b"abc").unwrap();
    let before = image.data.clone();
    assert_eq!(image.insert_file("HUGE", &bytes(254 * 664)), Err(D64Error::DiskFull));
    assert_eq!(image.data, before);
    assert_eq!(image.list_files(), Ok(vec!["SMALL".to_string()]));
    assert_eq!(image.insert_file("FITS", &bytes(254 * 663)), Ok(()));
}

#[test]
fn insert_into_a_blank_image_finds_no_free_sector() {
    let mut image = D64::new(35).unwrap();
    assert_eq!(image.insert_file("X", b"x"), Err(D64Error::DiskFull));
    assert!(image.data.iter().all(|&b| b == 0));
}

#[test]
fn insert_refuses_a_name_that_does_not_fit() {
    let mut image = formatted();
    let before = image.data.clone();
    assert_eq!(
        image.insert_file("SEVENTEEN LETTERS", b"x"),
        Err(D64Error::InvalidTrackSector)
    );
    assert_eq!(image.data, before);
}

#[test]
fn insert_reports_a_broken_directory() {
    let mut image = formatted();
    for name in ["A", "B", "C", "D", "E", "F", "G", "H"] {
        image.insert_file(name, b"x").unwrap();
    }
    set_link(&mut image, (18, 1), (18, 19));
    let before = image.data.clone();
    assert_eq!(image.insert_file("I", b"x"), Err(D64Error::Corrupt));
    assert_eq!(image.data, before);
}

#[test]
fn insert_reports_a_map_that_contradicts_itself() {
    let mut image = formatted();
    let mut map = image.read_bam().unwrap();
    map.free_sectors[0] = 1;
    image.write_bam(&map).unwrap();
    let before = image.data.clone();
    assert_eq!(image.insert_file("X", &bytes(300)), Err(D64Error::Corrupt));
    assert_eq!(image.data, before);
    assert_eq!(image.insert_file("X", &bytes(200)), Ok(()));
}

#[test]
fn lowercase_name_is_stored_in_capitals() {
    let mut image = formatted();
    image.insert_file("readme", b"text").unwrap();
    assert_eq!(image.list_files(), Ok(vec!["README".to_string()]));
    assert_eq!(image.extract_file("README").unwrap(), b"text");
    assert_eq!(image.extract_file("readme"), Err(D64Error::FileNotFound));
}

#[test]
fn missing_file_is_not_found() {
    let image = formatted();
    assert_eq!(image.extract_file("NOTHING"), Err(D64Error::FileNotFound));
    assert_eq!(image.trace_file("NOTHING"), Err(D64Error::FileNotFound));
}

#[test]
fn chain_that_loops_is_corruption() {
    let mut image = formatted();
    image.insert_file("LOOP", &bytes(600)).unwrap();
    set_link(&mut image, (1, 2), (1, 0));
    assert_eq!(image.trace_file("LOOP"), Err(D64Error::Corrupt));
    assert_eq!(image.extract_file("LOOP"), Err(D64Error::Corrupt));
    set_link(&mut image, (1, 2), (1, 2));
    assert_eq!(image.trace_file("LOOP"), Err(D64Error::Corrupt));
}

#[test]
fn chain_that_leaves_the_image_is_an_invalid_address() {
    let mut image = formatted();
    image.insert_file("OUT", &bytes(600)).unwrap();
    set_link(&mut image, (1, 1), (36, 0));
    assert_eq!(image.trace_file("OUT"), Err(D64Error::InvalidTrackSector));
    assert_eq!(image.extract_file("OUT"), Err(D64Error::InvalidTrackSector));
    set_link(&mut image, (1, 1), (1, 21));
    assert_eq!(image.trace_file("OUT"), Err(D64Error::InvalidTrackSector));
}

#[test]
fn start_outside_the_image_is_an_invalid_address() {
    let image = formatted();
    assert_eq!(image.file_sectors((0, 0)), Err(D64Error::InvalidTrackSector));
    assert_eq!(image.file_sectors((36, 0)), Err(D64Error::InvalidTrackSector));
    assert_eq!(image.file_sectors((2, 5)), Ok(vec![(2, 5)]));
}

#[test]
fn last_sector_that_claims_255_bytes_is_corruption() {
    let mut image = formatted();
    image.insert_file("BAD", b"abc").unwrap();
    set_link(&mut image, (1, 0), (0, 255));
    assert_eq!(image.trace_file("BAD"), Ok(vec![(1, 0)]));
    assert_eq!(image.extract_file("BAD"), Err(D64Error::Corrupt));
    set_link(&mut image, (1, 0), (0, 254));
    assert_eq!(image.extract_file("BAD").unwrap().len(), 254);
}

#[test]
fn chain_may_visit_every_sector_of_the_image() {
    let mut image = D64::new(35).unwrap();
    let mut all: Vec<(u8, u8)> = Vec::new();
    for track in 1..=35u8 {
        for sector in 0..d64lib::sectors_per_track(track) {
            all.push((track, sector));
        }
    }
    for i in 0..all.len() - 1 {
        set_link(&mut image, all[i], all[i + 1]);
    }
    set_link(&mut image, all[all.len() - 1], (0, 0));
    assert_eq!(image.file_sectors((1, 0)), Ok(all));
}

#[test]
fn files_work_on_an_image_of_40_tracks() {
    let mut image = D64::new(40).unwrap();
    image.format("FORTY", "40").unwrap();
    let content = bytes(3000);
    image.insert_file("F", &content).unwrap();
    assert_eq!(image.extract_file("F").unwrap(), content);
    assert_eq!(image.list_files(), Ok(vec!["F".to_string()]));
}

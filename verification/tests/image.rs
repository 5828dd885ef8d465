use d64lib::{D64Error, D64, D64_35_TRACKS_SIZE, D64_40_TRACKS_SIZE};

#[test]
fn new_image_is_all_zero() {
    let image = D64::new(40).unwrap();
    assert_eq!(image.tracks, 40);
    assert_eq!(image.data.len(), D64_40_TRACKS_SIZE);
    assert!(image.data.iter().all(|&b| b == 0));
}

#[test]
fn new_refuses_other_track_counts() {
    for tracks in [0u8, 1, 34, 36, 39, 41, 255] {
        assert!(matches!(D64::new(tracks), Err(D64Error::InvalidFileSize)));
    }
}

#[test]
fn bytes_of_either_size_are_taken_as_an_image() {
    let mut bytes = vec![0u8; D64_35_TRACKS_SIZE];
    bytes[1000] = 7;
    let image = D64::from_bytes(bytes.clone()).unwrap();
    assert_eq!(image.tracks, 35);
    assert_eq!(image.data, bytes);
    let image = D64::from_bytes(vec![1u8; D64_40_TRACKS_SIZE]).unwrap();
    assert_eq!(image.tracks, 40);
    assert_eq!(image.data, vec![1u8; D64_40_TRACKS_SIZE]);
}

#[test]
fn bytes_of_any_other_size_are_refused() {
    let sizes = [
        0usize,
        1,
        256,
        D64_35_TRACKS_SIZE - 1,
        D64_35_TRACKS_SIZE + 1,
        D64_40_TRACKS_SIZE + 256,
    ];
    for size in sizes {
        assert!(matches!(D64::from_bytes(vec![0u8; size]), Err(D64Error::InvalidFileSize)));
    }
}

#[test]
fn write_changes_one_sector_and_nothing_else() {
    let mut image = D64::new(35).unwrap();
    let mut block = [0u8; 256];
    for i in 0..256usize {
        block[i] = i as u8;
    }
    image.write_sector(18, 1, &block).unwrap();
    assert_eq!(&image.data[91648..91904], &block[..]);
    assert!(image.data[..91648].iter().all(|&b| b == 0));
    assert!(image.data[91904..].iter().all(|&b| b == 0));
    assert_eq!(image.read_sector(18, 1).unwrap(), &block[..]);
    assert_eq!(image.read_sector(18, 0).unwrap(), &[0u8; 256][..]);
    assert_eq!(image.read_sector(18, 2).unwrap(), &[0u8; 256][..]);
}

#[test]
fn last_sector_can_be_written_and_read() {
    let mut image = D64::new(40).unwrap();
    image.write_sector(40, 16, &[9u8; 256]).unwrap();
    assert_eq!(image.read_sector(40, 16).unwrap(), &[9u8; 256][..]);
    assert_eq!(&image.data[D64_40_TRACKS_SIZE - 256..], &[9u8; 256][..]);
}

#[test]
fn write_to_an_invalid_address_changes_nothing() {
    let mut image = D64::new(35).unwrap();
    let block = [1u8; 256];
    assert_eq!(image.write_sector(0, 0, &block), Err(D64Error::InvalidTrackSector));
    assert_eq!(image.write_sector(36, 0, &block), Err(D64Error::InvalidTrackSector));
    assert_eq!(image.write_sector(1, 21, &block), Err(D64Error::InvalidTrackSector));
    assert!(image.data.iter().all(|&b| b == 0));
}

#[test]
fn read_of_an_invalid_address_is_refused() {
    let image = D64::new(35).unwrap();
    assert_eq!(image.read_sector(0, 0), Err(D64Error::InvalidTrackSector));
    assert_eq!(image.read_sector(36, 0), Err(D64Error::InvalidTrackSector));
    assert_eq!(image.read_sector(35, 17), Err(D64Error::InvalidTrackSector));
}

#[test]
fn format_writes_map_and_empty_directory() {
    let mut image = D64::new(35).unwrap();
    for byte in image.data.iter_mut() {
        *byte = 0xEE;
    }
    image.format("TEST DISK", "2A").unwrap();
    let map = &image.data[91392..91648];
    assert_eq!(&map[0..4], &[18, 1, 0x41, 0]);
    assert_eq!(&map[4..8], &[21, 0xFF, 0xFF, 0xFF]);
    assert_eq!(&map[4 + 16 * 4..8 + 16 * 4], &[21, 0xFF, 0xFF, 0xFF]);
    assert_eq!(&map[4 + 17 * 4..8 + 17 * 4], &[0, 0, 0, 0]);
    assert_eq!(&map[4 + 18 * 4..8 + 18 * 4], &[19, 0xFF, 0xFF, 0xFF]);
    assert_eq!(&map[4 + 24 * 4..8 + 24 * 4], &[18, 0xFF, 0xFF, 0xFF]);
    assert_eq!(&map[4 + 34 * 4..8 + 34 * 4], &[17, 0xFF, 0xFF, 0xFF]);
    assert_eq!(&map[144..153], b"TEST DISK");
    assert_eq!(&map[153..160], &[0xA0; 7]);
    assert_eq!(&map[160..162], &[0, 0]);
    assert_eq!(&map[162..164], b"2A");
    assert!(map[164..].iter().all(|&b| b == 0));
    assert!(image.data[..91392].iter().all(|&b| b == 0));
    assert!(image.data[91648..].iter().all(|&b| b == 0));
}

#[test]
fn format_gives_the_label_back() {
    let mut image = D64::new(35).unwrap();
    image.format("TEST DISK", "2A").unwrap();
    let map = image.read_bam().unwrap();
    assert_eq!(map.get_disk_name(), "TEST DISK");
    assert_eq!(map.get_disk_id(), "2A");
}

#[test]
fn format_marks_all_tracks_but_18_free() {
    let mut image = D64::new(35).unwrap();
    image.format("A", "BC").unwrap();
    let map = image.read_bam().unwrap();
    let mut total: u32 = 0;
    for track in 1..=35u8 {
        let count: u8 = map.get_free_sectors_count(track).unwrap();
        if track == 18 {
            assert_eq!(count, 0);
            assert_eq!(map.find_free_sector(track), Ok(None));
        } else {
            assert_eq!(count, d64lib::sectors_per_track(track));
            assert_eq!(map.find_free_sector(track), Ok(Some(0)));
        }
        total += count as u32;
    }
    assert_eq!(total, 683 - 19);
}

#[test]
fn format_refuses_a_label_that_does_not_fit() {
    let mut image = D64::new(35).unwrap();
    image.write_sector(1, 0, &[5u8; 256]).unwrap();
    let before = image.data.clone();
    assert_eq!(image.format("SEVENTEEN LETTERS", "2A"), Err(D64Error::InvalidTrackSector));
    assert_eq!(image.format("NAME", "2"), Err(D64Error::InvalidTrackSector));
    assert_eq!(image.format("NAME", ""), Err(D64Error::InvalidTrackSector));
    assert_eq!(image.data, before);
}

#[test]
fn format_of_40_tracks_puts_the_label_over_the_high_entries() {
    let mut image = D64::new(40).unwrap();
    image.format("FORTY", "40").unwrap();
    let map = &image.data[91392..91648];
    assert_eq!(&map[4 + 34 * 4..8 + 34 * 4], &[17, 0xFF, 0xFF, 0xFF]);
    assert_eq!(&map[144..149], b"FORTY");
    assert_eq!(&map[149..160], &[0xA0; 11]);
    assert_eq!(&map[160..162], &[17, 0xFF]);
    assert_eq!(&map[162..164], b"40");
    assert_eq!(image.read_bam().unwrap().get_disk_name(), "FORTY");
}

#[test]
fn write_bam_always_sets_the_link_to_the_directory() {
    let mut image = D64::new(35).unwrap();
    let mut block = [0xFFu8; 256];
    block[2] = 0x41;
    image.write_sector(18, 0, &block).unwrap();
    let map = image.read_bam().unwrap();
    image.write_bam(&map).unwrap();
    let sector = image.read_sector(18, 0).unwrap();
    assert_eq!(&sector[0..4], &[18, 1, 0x41, 0]);
    assert_eq!(&sector[4..8], &[0xFF; 4]);
    assert!(sector[164..].iter().all(|&b| b == 0));
}

#[test]
fn image_allocate_and_free_go_through_the_stored_map() {
    let mut image = D64::new(35).unwrap();
    image.format("A", "BC").unwrap();
    assert_eq!(image.allocate_sector(1, 0), Ok(()));
    assert_eq!(image.read_bam().unwrap().get_free_sectors_count(1), Ok(20));
    assert_eq!(image.find_free_sector(), Ok((1, 1)));
    assert_eq!(image.allocate_sector(1, 0), Ok(()));
    assert_eq!(image.read_bam().unwrap().get_free_sectors_count(1), Ok(20));
    assert_eq!(image.free_sector(1, 0), Ok(()));
    assert_eq!(image.read_bam().unwrap().get_free_sectors_count(1), Ok(21));
    assert_eq!(image.find_free_sector(), Ok((1, 0)));
}

#[test]
fn image_allocate_and_free_refuse_invalid_addresses() {
    let mut image = D64::new(35).unwrap();
    image.format("A", "BC").unwrap();
    let before = image.data.clone();
    assert_eq!(image.allocate_sector(0, 0), Err(D64Error::InvalidTrackSector));
    assert_eq!(image.allocate_sector(36, 0), Err(D64Error::InvalidTrackSector));
    assert_eq!(image.free_sector(0, 0), Err(D64Error::InvalidTrackSector));
    assert_eq!(image.free_sector(18, 19), Err(D64Error::InvalidTrackSector));
    assert_eq!(image.data, before);
}

#[test]
fn blank_image_has_no_free_sector() {
    let image = D64::new(35).unwrap();
    assert_eq!(image.find_free_sector(), Err(D64Error::DiskFull));
}

#[test]
fn write_of_a_block_that_is_no_sector_changes_nothing() {
    let mut image = D64::new(35).unwrap();
    image.write_sector(1, 0, &[7u8; 256]).unwrap();
    let before = image.data.clone();
    assert_eq!(image.write_sector(1, 0, &[1u8; 255]), Err(D64Error::InvalidTrackSector));
    assert_eq!(image.write_sector(1, 0, &[1u8; 257]), Err(D64Error::InvalidTrackSector));
    assert_eq!(image.write_sector(1, 0, &[]), Err(D64Error::InvalidTrackSector));
    assert_eq!(image.write_sector(35, 16, &[1u8; 512]), Err(D64Error::InvalidTrackSector));
    assert_eq!(image.write_sector(0, 0, &[1u8; 3]), Err(D64Error::InvalidTrackSector));
    assert_eq!(image.data, before);
}

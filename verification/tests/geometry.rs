use d64lib::geometry::{sector_offset, sectors_per_track, SECTORS_BEFORE_TRACK};
use d64lib::{D64Error, D64, D64_35_TRACKS_SIZE, D64_40_TRACKS_SIZE, SECTORS_PER_TRACK};

#[test]
fn zones_have_21_19_18_and_17_sectors() {
    assert_eq!(sectors_per_track(1), 21);
    assert_eq!(sectors_per_track(17), 21);
    assert_eq!(sectors_per_track(18), 19);
    assert_eq!(sectors_per_track(24), 19);
    assert_eq!(sectors_per_track(25), 18);
    assert_eq!(sectors_per_track(30), 18);
    assert_eq!(sectors_per_track(31), 17);
    assert_eq!(sectors_per_track(40), 17);
}

#[test]
fn numbers_that_name_no_track_have_no_sectors() {
    assert_eq!(sectors_per_track(0), 0);
    assert_eq!(sectors_per_track(41), 0);
    assert_eq!(sectors_per_track(255), 0);
}

#[test]
fn table_of_sectors_matches_the_zones() {
    let mut track: u8 = 1;
    while track <= 40 {
        assert_eq!(SECTORS_PER_TRACK[(track - 1) as usize], sectors_per_track(track));
        track += 1;
    }
}

#[test]
fn prefix_table_sums_the_tracks_before() {
    let mut sum: u16 = 0;
    let mut index: usize = 0;
    while index < 40 {
        assert_eq!(SECTORS_BEFORE_TRACK[index], sum);
        sum += SECTORS_PER_TRACK[index] as u16;
        index += 1;
    }
    assert_eq!(SECTORS_BEFORE_TRACK[40], 768);
    assert_eq!(SECTORS_BEFORE_TRACK[35], 683);
}

#[test]
fn offsets_of_chosen_sectors() {
    assert_eq!(sector_offset(1, 0, 35), Ok(0));
    assert_eq!(sector_offset(1, 1, 35), Ok(256));
    assert_eq!(sector_offset(1, 20, 35), Ok(5120));
    assert_eq!(sector_offset(2, 0, 35), Ok(5376));
    assert_eq!(sector_offset(18, 0, 35), Ok(91392));
    assert_eq!(sector_offset(18, 1, 35), Ok(91648));
    assert_eq!(sector_offset(25, 0, 35), Ok(125440));
    assert_eq!(sector_offset(31, 0, 35), Ok(153088));
    assert_eq!(sector_offset(35, 16, 35), Ok(174592));
    assert_eq!(sector_offset(36, 0, 40), Ok(174848));
    assert_eq!(sector_offset(40, 16, 40), Ok(196352));
}

#[test]
fn offsets_tile_the_image_without_gap_or_overlap() {
    for tracks in [35u8, 40u8] {
        let mut expected: usize = 0;
        let mut track: u8 = 1;
        while track <= tracks {
            let mut sector: u8 = 0;
            while sector < sectors_per_track(track) {
                assert_eq!(sector_offset(track, sector, tracks), Ok(expected));
                expected += 256;
                sector += 1;
            }
            track += 1;
        }
        let size: usize = if tracks == 35 { D64_35_TRACKS_SIZE } else { D64_40_TRACKS_SIZE };
        assert_eq!(expected, size);
    }
}

#[test]
fn every_invalid_address_is_refused() {
    for tracks in [35u8, 40u8] {
        let mut track: u16 = 0;
        while track <= 255 {
            let mut sector: u16 = 0;
            while sector <= 255 {
                let t: u8 = track as u8;
                let s: u8 = sector as u8;
                let valid: bool = t >= 1 && t <= tracks && s < sectors_per_track(t);
                let offset = sector_offset(t, s, tracks);
                if valid {
                    assert!(offset.is_ok());
                } else {
                    assert_eq!(offset, Err(D64Error::InvalidTrackSector));
                }
                sector += 1;
            }
            track += 1;
        }
    }
}

#[test]
fn addresses_at_the_edges() {
    assert_eq!(sector_offset(0, 0, 35), Err(D64Error::InvalidTrackSector));
    assert_eq!(sector_offset(36, 0, 35), Err(D64Error::InvalidTrackSector));
    assert_eq!(sector_offset(41, 0, 40), Err(D64Error::InvalidTrackSector));
    assert_eq!(sector_offset(1, 21, 35), Err(D64Error::InvalidTrackSector));
    assert_eq!(sector_offset(18, 19, 35), Err(D64Error::InvalidTrackSector));
    assert_eq!(sector_offset(25, 18, 35), Err(D64Error::InvalidTrackSector));
    assert_eq!(sector_offset(31, 17, 35), Err(D64Error::InvalidTrackSector));
    assert_eq!(sector_offset(17, 20, 35), Ok(91136));
}

#[test]
fn image_method_goes_by_its_own_track_count() {
    let small = D64::new(35).unwrap();
    let large = D64::new(40).unwrap();
    assert_eq!(small.sector_offset(36, 0), Err(D64Error::InvalidTrackSector));
    assert_eq!(large.sector_offset(36, 0), Ok(174848));
    assert_eq!(small.sector_offset(18, 1), Ok(91648));
}

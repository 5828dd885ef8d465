//! Track and sector geometry: how many sectors each track holds and where a
//! sector lies in the flat image.

use crate::error::D64Error;
use vstd::prelude::*;

verus! {

/// Bytes in one sector.
pub const SECTOR_SIZE: usize = 256;

/// The highest track number any supported image has.
pub const MAX_TRACKS: u8 = 40;

/// Bytes in an image of 35 tracks.
pub const D64_35_TRACKS_SIZE: usize = 174848;

/// Bytes in an image of 40 tracks.
pub const D64_40_TRACKS_SIZE: usize = 196608;

/// Sectors on each track; track `t` is found at index `t - 1`.
pub const SECTORS_PER_TRACK: [u8; 40] = [
    21, 21, 21, 21, 21, 21, 21, 21, 21, 21, 21, 21, 21, 21, 21, 21, 21, 19, 19, 19, 19, 19, 19, 19,
    18, 18, 18, 18, 18, 18, 17, 17, 17, 17, 17, 17, 17, 17, 17, 17,
];

/// Sectors that lie before each track; index `t - 1` holds the count for
/// track `t`, and index 40 the count of all sectors of a 40-track image.
pub const SECTORS_BEFORE_TRACK: [u16; 41] = [
    0, 21, 42, 63, 84, 105, 126, 147, 168, 189, 210, 231, 252, 273, 294, 315, 336, 357, 376, 395,
    414, 433, 452, 471, 490, 508, 526, 544, 562, 580, 598, 615, 632, 649, 666, 683, 700, 717, 734,
    751, 768,
];

/// Sectors on `track`, counted from 1: four zones of 21, 19, 18 and 17
/// sectors. A number that names no track has none.
pub open spec fn sectors_on_track(track: int) -> int {
    if 1 <= track <= 17 {
        21
    } else if 18 <= track <= 24 {
        19
    } else if 25 <= track <= 30 {
        18
    } else if 31 <= track <= 40 {
        17
    } else {
        0
    }
}

/// Sectors on all tracks below `track`.
pub open spec fn sectors_before(track: int) -> int
    decreases track,
{
    if track <= 1 {
        0
    } else {
        sectors_before(track - 1) + sectors_on_track(track - 1)
    }
}

/// Bytes in an image of `tracks` tracks.
pub open spec fn image_size(tracks: int) -> int {
    sectors_before(tracks + 1) * 256
}

/// Whether `(track, sector)` names a sector of an image of `tracks` tracks.
pub open spec fn valid_address(track: int, sector: int, tracks: int) -> bool {
    1 <= track <= tracks && 0 <= sector < sectors_on_track(track)
}

/// Position of a sector among all sectors of the image, in track order.
pub open spec fn sector_index(track: int, sector: int) -> int {
    sectors_before(track) + sector
}

/// Byte offset of the first byte of a sector.
pub open spec fn offset_of(track: int, sector: int) -> int {
    sector_index(track, sector) * 256
}

/// The track that holds the sector at position `index`.
pub open spec fn track_of_index(index: int) -> int {
    if index < 357 {
        index / 21 + 1
    } else if index < 490 {
        (index - 357) / 19 + 18
    } else if index < 598 {
        (index - 490) / 18 + 25
    } else {
        (index - 598) / 17 + 31
    }
}

/// `sectors_before` without the recursion: each zone is a straight line.
pub proof fn lemma_sectors_before(track: int)
    ensures
        track <= 1 ==> sectors_before(track) == 0,
        1 <= track <= 18 ==> sectors_before(track) == (track - 1) * 21,
        18 <= track <= 25 ==> sectors_before(track) == 357 + (track - 18) * 19,
        25 <= track <= 31 ==> sectors_before(track) == 490 + (track - 25) * 18,
        31 <= track <= 41 ==> sectors_before(track) == 598 + (track - 31) * 17,
        41 <= track ==> sectors_before(track) == 768,
    decreases track,
{
    if track > 1 {
        lemma_sectors_before(track - 1);
    }
}

/// The two supported images hold 683 and 768 sectors.
pub proof fn lemma_image_sizes()
    ensures
        image_size(35) == D64_35_TRACKS_SIZE,
        image_size(40) == D64_40_TRACKS_SIZE,
{
    lemma_sectors_before(36);
    lemma_sectors_before(41);
}

/// A valid sector lies wholly inside the image, on a sector boundary.
pub proof fn lemma_offset_in_image(track: int, sector: int, tracks: int)
    requires
        valid_address(track, sector, tracks),
    ensures
        0 <= sector_index(track, sector) < sectors_before(tracks + 1),
        0 <= offset_of(track, sector),
        offset_of(track, sector) + 256 <= image_size(tracks),
        offset_of(track, sector) % 256 == 0,
{
    lemma_sectors_before(track);
    lemma_sectors_before(track + 1);
    lemma_sectors_before(tracks + 1);
}

/// Two valid sectors that start at the same byte are the same sector.
pub proof fn lemma_offset_injective(t1: int, s1: int, t2: int, s2: int, tracks: int)
    requires
        valid_address(t1, s1, tracks),
        valid_address(t2, s2, tracks),
        offset_of(t1, s1) == offset_of(t2, s2),
    ensures
        t1 == t2,
        s1 == s2,
{
    lemma_sectors_before(t1);
    lemma_sectors_before(t2);
    lemma_sectors_before(t1 + 1);
    lemma_sectors_before(t2 + 1);
}

/// No two different valid sectors share a byte.
pub proof fn lemma_sectors_disjoint(t1: int, s1: int, t2: int, s2: int, tracks: int)
    requires
        valid_address(t1, s1, tracks),
        valid_address(t2, s2, tracks),
        t1 != t2 || s1 != s2,
    ensures
        offset_of(t1, s1) + 256 <= offset_of(t2, s2) || offset_of(t2, s2) + 256 <= offset_of(
            t1,
            s1,
        ),
{
    if offset_of(t1, s1) == offset_of(t2, s2) {
        lemma_offset_injective(t1, s1, t2, s2, tracks);
    }
}

/// Every position below the sector count of the image is that of exactly
/// the sector `track_of_index` and the distance from its track's start give.
pub proof fn lemma_index_address(index: int, tracks: int)
    requires
        0 <= tracks <= 40,
        0 <= index < sectors_before(tracks + 1),
    ensures
        valid_address(
            track_of_index(index),
            index - sectors_before(track_of_index(index)),
            tracks,
        ),
        sector_index(track_of_index(index), index - sectors_before(track_of_index(index)))
            == index,
{
    let t = track_of_index(index);
    lemma_sectors_before(tracks + 1);
    lemma_sectors_before(t);
    lemma_sectors_before(t + 1);
}

/// Every byte of the image belongs to some valid sector: the sectors leave
/// no gap.
pub proof fn lemma_sectors_cover(byte: int, tracks: int)
    requires
        0 <= tracks <= 40,
        0 <= byte < image_size(tracks),
    ensures
        exists|track: int, sector: int|
            valid_address(track, sector, tracks) && #[trigger] offset_of(track, sector) <= byte
                < offset_of(track, sector) + 256,
{
    let index = byte / 256;
    let t = track_of_index(index);
    lemma_index_address(index, tracks);
    assert(offset_of(t, index - sectors_before(t)) <= byte < offset_of(
        t,
        index - sectors_before(t),
    ) + 256);
}

/// Numbers that are all different and all lie from 0 up to, but not at,
/// `bound` are at most `bound` many.
pub proof fn lemma_distinct_numbers_are_few(numbers: Seq<int>, bound: int)
    requires
        0 <= bound,
        numbers.no_duplicates(),
        forall|i: int| 0 <= i < numbers.len() ==> 0 <= #[trigger] numbers[i] < bound,
    ensures
        numbers.len() <= bound,
{
    numbers.unique_seq_to_set();
    vstd::set_lib::lemma_int_range(0, bound);
    assert(numbers.to_set().subset_of(vstd::set_lib::set_int_range(0, bound))) by {
        assert forall|x: int| numbers.to_set().contains(x) implies vstd::set_lib::set_int_range(
            0,
            bound,
        ).contains(x) by {
            let i = choose|i: int| 0 <= i < numbers.len() && numbers[i] == x;
            assert(0 <= numbers[i] < bound);
        }
    }
    vstd::set_lib::lemma_len_subset(numbers.to_set(), vstd::set_lib::set_int_range(0, bound));
}

/// Sectors on `track`, or none where `track` is no track number.
pub fn sectors_per_track(track: u8) -> (n: u8)
    ensures
        n == sectors_on_track(track as int),
{
    if track == 0 || track > MAX_TRACKS {
        0
    } else {
        SECTORS_PER_TRACK[(track - 1) as usize]
    }
}

/// Byte offset of sector `(track, sector)` in an image of `tracks` tracks.
///
/// Fails with `InvalidTrackSector` exactly when the address names no sector
/// of such an image.
pub fn sector_offset(track: u8, sector: u8, tracks: u8) -> (r: Result<usize, D64Error>)
    ensures
        valid_address(track as int, sector as int, tracks as int) ==> r == Ok::<usize, D64Error>(
            offset_of(track as int, sector as int) as usize,
        ),
        !valid_address(track as int, sector as int, tracks as int) ==> r == Err::<
            usize,
            D64Error,
        >(D64Error::InvalidTrackSector),
        r matches Ok(offset) ==> offset == offset_of(track as int, sector as int) && offset + 256
            <= image_size(tracks as int),
{
    if track == 0 || track > tracks || sector >= sectors_per_track(track) {
        return Err(D64Error::InvalidTrackSector);
    }
    proof {
        lemma_sectors_before(track as int);
        lemma_offset_in_image(track as int, sector as int, tracks as int);
        lemma_sectors_before(tracks as int + 1);
    }
    let before: usize = SECTORS_BEFORE_TRACK[(track - 1) as usize] as usize;
    Ok((before + sector as usize) * SECTOR_SIZE)
}

} // verus!

//! The block availability map: per track a counter of free sectors and a
//! bitmap of them, with the disk's label, as one sector of the image holds
//! them.

use crate::error::D64Error;
use crate::geometry::{sectors_on_track, sectors_per_track, valid_address};
use crate::petscii::{
    ascii_to_petscii, decode_field, field_text, lemma_encoded_text_has_no_fill,
    lemma_field_text_of_padded, padded, petscii_bytes, stored_name, FILL_BYTE,
};
use vstd::prelude::*;

verus! {

/// The format marker that a freshly formatted disk carries.
pub const DOS_TYPE: u8 = 0x41;

/// The decoded availability map. A value is a snapshot of one sector: it is
/// read from the image, changed, and written back.
#[derive(Debug, Clone, Copy)]
pub struct BAM {
    pub tracks: u8,
    pub free_sectors: [u8; 40],
    pub bitmap: [[u8; 3]; 40],
    pub disk_name: [u8; 16],
    pub disk_id: [u8; 2],
    pub dos_type: u8,
}

/// What a `BAM` holds, as plain sequences.
#[verifier::ext_equal]
pub struct BamView {
    pub tracks: u8,
    pub free_sectors: Seq<u8>,
    pub bitmap: Seq<Seq<u8>>,
    pub disk_name: Seq<u8>,
    pub disk_id: Seq<u8>,
    pub dos_type: u8,
}

impl View for BAM {
    type V = BamView;

    open spec fn view(&self) -> BamView {
        BamView {
            tracks: self.tracks,
            free_sectors: self.free_sectors@,
            bitmap: Seq::new(40, |t: int| self.bitmap[t]@),
            disk_name: self.disk_name@,
            disk_id: self.disk_id@,
            dos_type: self.dos_type,
        }
    }
}

/// Whether bit `bit` of `byte` is set.
pub open spec fn bit_is_set(byte: u8, bit: u8) -> bool {
    byte & (1u8 << bit) != 0
}

impl BamView {
    /// Every field has the width that the sector layout gives it.
    pub open spec fn wf(self) -> bool {
        &&& self.free_sectors.len() == 40
        &&& self.bitmap.len() == 40
        &&& forall|t: int| 0 <= t < 40 ==> (#[trigger] self.bitmap[t]).len() == 3
        &&& self.disk_name.len() == 16
        &&& self.disk_id.len() == 2
    }

    /// Whether `track` names a track of the map: it is at least 1, not
    /// beyond the tracks of the map, and not beyond track 40, the last that
    /// has sectors.
    pub open spec fn has_track(self, track: u8) -> bool {
        1 <= track <= self.tracks && track <= 40
    }

    /// Whether the map marks `(track, sector)` free: its bit is 1.
    pub open spec fn is_free(self, track: u8, sector: u8) -> bool {
        bit_is_set(self.bitmap[track - 1][sector as int / 8], sector % 8)
    }

    /// The stored counter of free sectors on `track`.
    pub open spec fn free_count(self, track: u8) -> u8 {
        self.free_sectors[track - 1]
    }

    /// How many of the first `n` sectors of `track` the bitmap marks free.
    pub open spec fn free_bits_below(self, track: u8, n: int) -> int
        decreases n,
    {
        if n <= 0 {
            0
        } else {
            self.free_bits_below(track, n - 1) + if self.is_free(track, (n - 1) as u8) {
                1int
            } else {
                0int
            }
        }
    }

    /// Whether the counter of `track` equals the number of its sectors that
    /// the bitmap marks free. Holds of every number that names no track.
    pub open spec fn count_agrees(self, track: u8) -> bool {
        1 <= track <= self.tracks && track <= 40 ==> self.free_count(track)
            == self.free_bits_below(track, sectors_on_track(track as int))
    }

    /// The invariant of the map: on every track the counter agrees with the
    /// bitmap.
    pub open spec fn counts_agree(self) -> bool {
        forall|track: u8| #[trigger] self.count_agrees(track)
    }

    /// The map with the bit of `(track, sector)` cleared or set, and the
    /// counter of the track as given.
    pub open spec fn with_sector(self, track: u8, sector: u8, free: bool, count: u8) -> BamView {
        let old_byte = self.bitmap[track - 1][sector as int / 8];
        let new_byte = if free {
            old_byte | (1u8 << (sector % 8))
        } else {
            old_byte & !(1u8 << (sector % 8))
        };
        BamView {
            free_sectors: self.free_sectors.update(track - 1, count),
            bitmap: self.bitmap.update(
                track - 1,
                self.bitmap[track - 1].update(sector as int / 8, new_byte),
            ),
            ..self
        }
    }

    /// What `allocate_sector` reports.
    pub open spec fn allocate_outcome(self, track: u8, sector: u8) -> Result<(), D64Error> {
        if !valid_address(track as int, sector as int, self.tracks as int) {
            Err(D64Error::InvalidTrackSector)
        } else if self.is_free(track, sector) && self.free_count(track) == 0 {
            Err(D64Error::Corrupt)
        } else {
            Ok(())
        }
    }

    /// The map after `allocate_sector`: a free sector becomes allocated and
    /// its track's counter goes down by one; in every other case nothing
    /// changes.
    pub open spec fn allocated(self, track: u8, sector: u8) -> BamView {
        if valid_address(track as int, sector as int, self.tracks as int) && self.is_free(
            track,
            sector,
        ) && self.free_count(track) > 0 {
            self.with_sector(track, sector, false, (self.free_count(track) - 1) as u8)
        } else {
            self
        }
    }

    /// What `free_sector` reports.
    pub open spec fn free_outcome(self, track: u8, sector: u8) -> Result<(), D64Error> {
        if !valid_address(track as int, sector as int, self.tracks as int) {
            Err(D64Error::InvalidTrackSector)
        } else if !self.is_free(track, sector) && self.free_count(track) == 255 {
            Err(D64Error::Corrupt)
        } else {
            Ok(())
        }
    }

    /// The map after `free_sector`: an allocated sector becomes free and its
    /// track's counter goes up by one; in every other case nothing changes.
    pub open spec fn freed(self, track: u8, sector: u8) -> BamView {
        if valid_address(track as int, sector as int, self.tracks as int) && !self.is_free(
            track,
            sector,
        ) && self.free_count(track) < 255 {
            self.with_sector(track, sector, true, (self.free_count(track) + 1) as u8)
        } else {
            self
        }
    }

    /// The lowest free sector of `track` that is not below `from`.
    pub open spec fn first_free_from(self, track: u8, from: int) -> Option<u8>
        decreases sectors_on_track(track as int) - from,
    {
        if from < 0 || from >= sectors_on_track(track as int) {
            None
        } else if self.is_free(track, from as u8) {
            Some(from as u8)
        } else {
            self.first_free_from(track, from + 1)
        }
    }

    /// The lowest free sector of `track`; none where the track is not one of
    /// the map or has no free sector.
    pub open spec fn first_free_on(self, track: u8) -> Option<u8> {
        if 1 <= track <= self.tracks {
            self.first_free_from(track, 0)
        } else {
            None
        }
    }

    /// The first free sector on the tracks from `track` upwards.
    pub open spec fn first_free_at_or_after(self, track: int) -> Option<(u8, u8)>
        decreases 256 - track,
    {
        if track < 1 || track > self.tracks {
            None
        } else {
            match self.first_free_on(track as u8) {
                Some(sector) => Some((track as u8, sector)),
                None => self.first_free_at_or_after(track + 1),
            }
        }
    }

    /// The first free sector of the map: on the lowest track that has a free
    /// sector, the lowest free sector.
    pub open spec fn first_free(self) -> Option<(u8, u8)> {
        self.first_free_at_or_after(1)
    }

    /// How many sectors of the tracks 1 to `upto` the bitmap marks free.
    pub open spec fn free_on_tracks(self, upto: int) -> int
        decreases upto,
    {
        if upto <= 0 {
            0
        } else {
            self.free_on_tracks(upto - 1) + if upto <= self.tracks {
                self.free_bits_below(upto as u8, sectors_on_track(upto))
            } else {
                0
            }
        }
    }

    /// How many sectors of the map the bitmap marks free.
    pub open spec fn free_total(self) -> int {
        self.free_on_tracks(40)
    }

    /// Whether every entry beyond the tracks of the map is zero, as it is in
    /// a map that was decoded.
    pub open spec fn is_trimmed(self) -> bool {
        &&& forall|t: int| self.tracks <= t < 40 ==> #[trigger] self.free_sectors[t] == 0
        &&& forall|t: int, k: int|
            self.tracks <= t < 40 && 0 <= k < 3 ==> #[trigger] self.bitmap[t][k] == 0
    }
}

/// The map that the 256 bytes of a sector hold, for an image of `tracks`
/// tracks: the entry of track `t` (counted from 0) at byte `4 + 4 * t`, the
/// name at 144, the id at 162, the format marker at 2.
pub open spec fn decoded(data: Seq<u8>, tracks: u8) -> BamView {
    BamView {
        tracks,
        free_sectors: Seq::new(40, |t: int| if t < tracks { data[4 + 4 * t] } else { 0u8 }),
        bitmap: Seq::new(
            40,
            |t: int| Seq::new(3, |k: int| if t < tracks { data[5 + 4 * t + k] } else { 0u8 }),
        ),
        disk_name: data.subrange(144, 160),
        disk_id: data.subrange(162, 164),
        dos_type: data[2],
    }
}

/// Byte `i` of the sector as the per-track entries alone fill it: four
/// bytes per track, the counter and then the three bytes of the bitmap.
pub open spec fn entry_byte(map: BamView, i: int) -> u8 {
    if i % 4 == 0 {
        map.free_sectors[(i - 4) / 4]
    } else {
        map.bitmap[(i - 4) / 4][i % 4 - 1]
    }
}

/// Byte `i` of the sector that holds `map`. The link bytes point at the
/// first directory sector. Name and id lie where the entries of tracks 36 to
/// 40 would: where both claim a byte, the label has it.
pub open spec fn encoded_byte(map: BamView, i: int) -> u8 {
    if i == 0 {
        18
    } else if i == 1 {
        1
    } else if i == 2 {
        map.dos_type
    } else if 144 <= i < 160 {
        map.disk_name[i - 144]
    } else if 162 <= i < 164 {
        map.disk_id[i - 162]
    } else if 4 <= i < 4 + 4 * map.tracks && i < 164 {
        entry_byte(map, i)
    } else {
        0
    }
}

/// The 256 bytes of the sector that holds `map`.
pub open spec fn encoded(map: BamView) -> Seq<u8> {
    Seq::new(256, |i: int| encoded_byte(map, i))
}

impl BAM {
    /// Decodes the availability map from the 256 bytes of its sector, for an
    /// image of `tracks` tracks. A block that is not 256 bytes long, or a
    /// number of tracks beyond 40, is refused with `InvalidTrackSector`.
    pub fn from_sector_data(data: &[u8], tracks: u8) -> (r: Result<BAM, D64Error>)
        ensures
            data@.len() == 256 && tracks <= 40 ==> (r matches Ok(map) && map@ == decoded(
                data@,
                tracks,
            )),
            !(data@.len() == 256 && tracks <= 40) ==> (r matches Err(e) && e
                == D64Error::InvalidTrackSector),
    {
        if data.len() != 256 || tracks > 40 {
            return Err(D64Error::InvalidTrackSector);
        }
        let mut bam = BAM {
            tracks,
            free_sectors: [0;40],
            bitmap: [[0;3];40],
            disk_name: [0;16],
            disk_id: [0;2],
            dos_type: data[2],
        };
        let mut track: usize = 0;
        while track < tracks as usize
            invariant
                track <= tracks <= 40,
                data@.len() == 256,
                bam.tracks == tracks,
                bam.dos_type == data@[2],
                forall|t: int| 0 <= t < track ==> bam.free_sectors[t] == data@[4 + 4 * t],
                forall|t: int| track <= t < 40 ==> bam.free_sectors[t] == 0,
                forall|t: int, k: int|
                    0 <= t < track && 0 <= k < 3 ==> #[trigger] bam.bitmap[t][k] == data@[5 + 4
                        * t + k],
                forall|t: int, k: int|
                    track <= t < 40 && 0 <= k < 3 ==> #[trigger] bam.bitmap[t][k] == 0,
            decreases tracks - track,
        {
            bam.free_sectors[track] = data[4 + track * 4];
            bam.bitmap[track][0] = data[5 + track * 4];
            bam.bitmap[track][1] = data[6 + track * 4];
            bam.bitmap[track][2] = data[7 + track * 4];
            track += 1;
        }
        assert(bam@.free_sectors =~= decoded(data@, tracks).free_sectors);
        assert(bam@.bitmap =~~= decoded(data@, tracks).bitmap);
        let mut i: usize = 0;
        while i < 16
            invariant
                i <= 16,
                data@.len() == 256,
                forall|j: int| 0 <= j < i ==> bam.disk_name[j] == data@[144 + j],
                bam.tracks == tracks,
                bam.dos_type == data@[2],
                bam@.free_sectors == decoded(data@, tracks).free_sectors,
                bam@.bitmap == decoded(data@, tracks).bitmap,
            decreases 16 - i,
        {
            bam.disk_name[i] = data[144 + i];
            i += 1;
        }
        bam.disk_id[0] = data[162];
        bam.disk_id[1] = data[163];
        assert(bam@.disk_name =~= decoded(data@, tracks).disk_name);
        assert(bam@.disk_id =~= decoded(data@, tracks).disk_id);
        Ok(bam)
    }

    /// Encodes the map as the 256 bytes of its sector.
    pub fn to_sector_data(&self) -> (data: Vec<u8>)
        ensures
            data@ == encoded(self@),
    {
        let mut data: Vec<u8> = vec![0u8; 256];
        data[0] = 18;
        data[1] = 1;
        data[2] = self.dos_type;
        let limit: usize = if self.tracks > 40 {
            40
        } else {
            self.tracks as usize
        };
        let mut track: usize = 0;
        while track < limit
            invariant
                track <= limit <= 40,
                limit <= self.tracks,
                self.tracks <= 40 ==> limit == self.tracks,
                data@.len() == 256,
                forall|i: int|
                    0 <= i < 256 ==> #[trigger] data@[i] == if i == 0 {
                        18u8
                    } else if i == 1 {
                        1u8
                    } else if i == 2 {
                        self.dos_type
                    } else if 4 <= i < 4 + 4 * track {
                        entry_byte(self@, i)
                    } else {
                        0u8
                    },
            decreases limit - track,
        {
            data[4 + track * 4] = self.free_sectors[track];
            data[5 + track * 4] = self.bitmap[track][0];
            data[6 + track * 4] = self.bitmap[track][1];
            data[7 + track * 4] = self.bitmap[track][2];
            track += 1;
        }
        let ghost entries = data@;
        let mut i: usize = 0;
        while i < 16
            invariant
                i <= 16,
                data@.len() == 256,
                forall|j: int|
                    0 <= j < 256 ==> #[trigger] data@[j] == if 144 <= j < 144 + i {
                        self.disk_name[j - 144]
                    } else {
                        entries[j]
                    },
            decreases 16 - i,
        {
            data[144 + i] = self.disk_name[i];
            i += 1;
        }
        data[162] = self.disk_id[0];
        data[163] = self.disk_id[1];
        assert(data@ =~= encoded(self@));
        data
    }

    /// Marks a sector allocated.
    ///
    /// An address that names no sector of the map is refused with
    /// `InvalidTrackSector`. A sector that is allocated already stays so. A
    /// free sector gets its bit cleared and its track's counter lowered by
    /// one; where that counter is 0 although the bit says free, the map
    /// contradicts itself and `Corrupt` is reported. Whenever an error is
    /// reported the map is unchanged.
    pub fn allocate_sector(&mut self, track: u8, sector: u8) -> (r: Result<(), D64Error>)
        ensures
            r == old(self)@.allocate_outcome(track, sector),
            final(self)@ == old(self)@.allocated(track, sector),
            track == 0 || track > old(self).tracks ==> r == Err::<(), D64Error>(
                D64Error::InvalidTrackSector,
            ),
            r is Err ==> *final(self) == *old(self),
            old(self)@.counts_agree() ==> final(self)@.counts_agree() && (r is Ok
                <==> valid_address(track as int, sector as int, old(self).tracks as int)),
    {
        proof {
            if self@.counts_agree() {
                lemma_allocated_counts_agree(self@, track, sector);
            }
        }
        if track == 0 || track > self.tracks || sector >= sectors_per_track(track) {
            return Err(D64Error::InvalidTrackSector);
        }
        let track_idx: usize = (track - 1) as usize;
        let byte_idx: usize = (sector / 8) as usize;
        let mask: u8 = 1u8 << (sector % 8);
        let byte: u8 = self.bitmap[track_idx][byte_idx];
        if byte & mask == 0 {
            return Ok(());
        }
        if self.free_sectors[track_idx] == 0 {
            return Err(D64Error::Corrupt);
        }
        self.bitmap[track_idx][byte_idx] = byte & !mask;
        self.free_sectors[track_idx] = self.free_sectors[track_idx] - 1;
        assert(self@ =~~= old(self)@.allocated(track, sector));
        Ok(())
    }

    /// Marks a sector free.
    ///
    /// An address that names no sector of the map is refused with
    /// `InvalidTrackSector`. A sector that is free already stays so. An
    /// allocated sector gets its bit set and its track's counter raised by
    /// one; where that counter cannot go higher, the map contradicts itself
    /// and `Corrupt` is reported. Whenever an error is reported the map is
    /// unchanged.
    pub fn free_sector(&mut self, track: u8, sector: u8) -> (r: Result<(), D64Error>)
        ensures
            r == old(self)@.free_outcome(track, sector),
            final(self)@ == old(self)@.freed(track, sector),
            track == 0 || track > old(self).tracks ==> r == Err::<(), D64Error>(
                D64Error::InvalidTrackSector,
            ),
            r is Err ==> *final(self) == *old(self),
            old(self)@.counts_agree() ==> final(self)@.counts_agree() && (r is Ok
                <==> valid_address(track as int, sector as int, old(self).tracks as int)),
    {
        proof {
            if self@.counts_agree() {
                lemma_freed_counts_agree(self@, track, sector);
            }
        }
        if track == 0 || track > self.tracks || sector >= sectors_per_track(track) {
            return Err(D64Error::InvalidTrackSector);
        }
        let track_idx: usize = (track - 1) as usize;
        let byte_idx: usize = (sector / 8) as usize;
        let mask: u8 = 1u8 << (sector % 8);
        let byte: u8 = self.bitmap[track_idx][byte_idx];
        if byte & mask != 0 {
            return Ok(());
        }
        if self.free_sectors[track_idx] == 255 {
            return Err(D64Error::Corrupt);
        }
        self.bitmap[track_idx][byte_idx] = byte | mask;
        self.free_sectors[track_idx] = self.free_sectors[track_idx] + 1;
        assert(self@ =~~= old(self)@.freed(track, sector));
        Ok(())
    }

    /// The lowest sector of `track` that the bitmap marks free, or `None`
    /// where no sector of the track is free.
    ///
    /// Bits at or above the track's sector count are never looked at. A
    /// `track` that names no track of the map (0, or beyond its tracks) is
    /// refused with `InvalidTrackSector`, as `allocate_sector` and
    /// `free_sector` refuse it.
    pub fn find_free_sector(&self, track: u8) -> (r: Result<Option<u8>, D64Error>)
        ensures
            track == 0 || track > self.tracks ==> r == Err::<Option<u8>, D64Error>(
                D64Error::InvalidTrackSector,
            ),
            !self@.has_track(track) ==> r == Err::<Option<u8>, D64Error>(
                D64Error::InvalidTrackSector,
            ),
            self@.has_track(track) ==> r == Ok::<Option<u8>, D64Error>(
                self@.first_free_on(track),
            ),
            r matches Ok(Some(sector)) ==> valid_address(
                track as int,
                sector as int,
                self.tracks as int,
            ) && self@.is_free(track, sector) && forall|lower: u8|
                lower < sector ==> !self@.is_free(track, lower),
            r matches Ok(None) ==> forall|sector: u8|
                valid_address(track as int, sector as int, self.tracks as int)
                    ==> !self@.is_free(track, sector),
    {
        if track == 0 || track > self.tracks || track > 40 {
            return Err(D64Error::InvalidTrackSector);
        }
        Ok(self.lowest_free_on(track))
    }

    /// The lowest free sector of a track of the map.
    fn lowest_free_on(&self, track: u8) -> (r: Option<u8>)
        requires
            self@.has_track(track),
        ensures
            r == self@.first_free_on(track),
            r matches Some(sector) ==> valid_address(
                track as int,
                sector as int,
                self.tracks as int,
            ) && self@.is_free(track, sector) && forall|lower: u8|
                lower < sector ==> !self@.is_free(track, lower),
            r is None ==> forall|sector: u8|
                valid_address(track as int, sector as int, self.tracks as int)
                    ==> !self@.is_free(track, sector),
    {
        proof {
            lemma_first_free_on(self@, track);
        }
        let count: u8 = sectors_per_track(track);
        let mut sector: u8 = 0;
        while sector < count
            invariant
                sector <= count,
                count == sectors_on_track(track as int),
                self@.has_track(track),
                self@.first_free_on(track) == self@.first_free_from(track, sector as int),
            decreases count - sector,
        {
            let byte: u8 = self.bitmap[(track - 1) as usize][(sector / 8) as usize];
            if byte & (1u8 << (sector % 8)) != 0 {
                proof {
                    lemma_first_free_on(self@, track);
                }
                return Some(sector);
            }
            sector += 1;
        }
        None
    }

    /// The first free sector of the whole map, looking at the tracks in
    /// rising order and on each track at the sectors in rising order.
    pub fn find_first_free(&self) -> (r: Option<(u8, u8)>)
        ensures
            r == self@.first_free(),
            r matches Some(found) ==> valid_address(
                found.0 as int,
                found.1 as int,
                self.tracks as int,
            ) && self@.is_free(found.0, found.1),
            r is None ==> forall|track: u8, sector: u8|
                valid_address(track as int, sector as int, self.tracks as int)
                    ==> !#[trigger] self@.is_free(track, sector),
    {
        proof {
            lemma_first_free(self@);
        }
        let limit: u8 = if self.tracks > 40 {
            40
        } else {
            self.tracks
        };
        let mut track: u8 = 1;
        while track <= limit
            invariant
                1 <= track <= limit + 1,
                limit <= 40,
                limit <= self.tracks,
                self.tracks <= 40 ==> limit == self.tracks,
                self@.first_free() == self@.first_free_at_or_after(track as int),
            decreases limit + 1 - track,
        {
            match self.lowest_free_on(track) {
                Some(sector) => {
                    return Some((track, sector));
                },
                None => {},
            }
            track += 1;
        }
        proof {
            lemma_no_sector_beyond_track_40(self@, track as int);
        }
        None
    }

    /// The stored counter of free sectors on `track`; `InvalidTrackSector`
    /// where `track` names no track of the map.
    pub fn get_free_sectors_count(&self, track: u8) -> (r: Result<u8, D64Error>)
        ensures
            self@.has_track(track) ==> r == Ok::<u8, D64Error>(self@.free_count(track)),
            !self@.has_track(track) ==> r == Err::<u8, D64Error>(D64Error::InvalidTrackSector),
    {
        if track == 0 || track > self.tracks || track > 40 {
            return Err(D64Error::InvalidTrackSector);
        }
        Ok(self.free_sectors[(track - 1) as usize])
    }

    /// The disk's name: the name field up to its padding, decoded.
    pub fn get_disk_name(&self) -> (name: String)
        ensures
            name@ == field_text(self@.disk_name),
    {
        decode_field(&self.disk_name)
    }

    /// The disk's id: the id field up to its padding, decoded.
    pub fn get_disk_id(&self) -> (id: String)
        ensures
            id@ == field_text(self@.disk_id),
    {
        decode_field(&self.disk_id)
    }

    /// Stores `name`, encoded and padded with the fill byte, as the disk's
    /// name; `get_disk_name` then gives the name as stored. A name of more
    /// than 16 characters does not fit the field: it is refused with
    /// `InvalidTrackSector` and the map stays as it was.
    pub fn set_disk_name(&mut self, name: &str) -> (r: Result<(), D64Error>)
        ensures
            name@.len() <= 16 ==> r is Ok && final(self)@ == (BamView {
                disk_name: padded(petscii_bytes(name@), 16),
                ..old(self)@
            }) && field_text(final(self)@.disk_name) == stored_name(name@),
            name@.len() > 16 ==> r == Err::<(), D64Error>(D64Error::InvalidTrackSector)
                && *final(self) == *old(self),
    {
        let bytes = ascii_to_petscii(name);
        if bytes.len() > 16 {
            return Err(D64Error::InvalidTrackSector);
        }
        let mut i: usize = 0;
        while i < 16
            invariant
                i <= 16,
                bytes@.len() <= 16,
                forall|j: int| 0 <= j < i ==> self.disk_name[j] == padded(bytes@, 16)[j],
                self.tracks == old(self).tracks,
                self.free_sectors == old(self).free_sectors,
                self.bitmap == old(self).bitmap,
                self.disk_id == old(self).disk_id,
                self.dos_type == old(self).dos_type,
            decreases 16 - i,
        {
            self.disk_name[i] = if i < bytes.len() {
                bytes[i]
            } else {
                FILL_BYTE
            };
            i += 1;
        }
        proof {
            assert(self@.disk_name =~= padded(petscii_bytes(name@), 16));
            lemma_encoded_text_has_no_fill(name@);
            lemma_field_text_of_padded(petscii_bytes(name@), 16);
        }
        Ok(())
    }

    /// Stores the first two characters of `id`, encoded, as the disk's id;
    /// `get_disk_id` then gives those two as stored. An id of fewer than two
    /// characters cannot fill the field: it is refused with
    /// `InvalidTrackSector` and the map stays as it was.
    pub fn set_disk_id(&mut self, id: &str) -> (r: Result<(), D64Error>)
        ensures
            id@.len() >= 2 ==> r is Ok && final(self)@ == (BamView {
                disk_id: petscii_bytes(id@).take(2),
                ..old(self)@
            }) && field_text(final(self)@.disk_id) == stored_name(id@.take(2)),
            id@.len() < 2 ==> r == Err::<(), D64Error>(D64Error::InvalidTrackSector)
                && *final(self) == *old(self),
    {
        let bytes = ascii_to_petscii(id);
        if bytes.len() < 2 {
            return Err(D64Error::InvalidTrackSector);
        }
        self.disk_id[0] = bytes[0];
        self.disk_id[1] = bytes[1];
        proof {
            assert(self@.disk_id =~= petscii_bytes(id@).take(2));
            assert(petscii_bytes(id@).take(2) =~= petscii_bytes(id@.take(2)));
            assert(padded(petscii_bytes(id@.take(2)), 2) =~= petscii_bytes(id@.take(2)));
            lemma_encoded_text_has_no_fill(id@.take(2));
            lemma_field_text_of_padded(petscii_bytes(id@.take(2)), 2);
        }
        Ok(())
    }
}

/// Clearing bit `k` of a byte clears that bit and no other, and setting it
/// again gives back a byte that had it set.
proof fn lemma_clear_bit(byte: u8, k: u8, j: u8)
    requires
        k < 8,
        j < 8,
    ensures
        bit_is_set(byte & !(1u8 << k), j) == (j != k && bit_is_set(byte, j)),
        bit_is_set(byte, k) ==> (byte & !(1u8 << k)) | (1u8 << k) == byte,
{
    assert((byte & !(1u8 << k)) & (1u8 << j) != 0 <==> (j != k && byte & (1u8 << j) != 0))
        by (bit_vector)
        requires
            k < 8,
            j < 8,
    ;
    assert(byte & (1u8 << k) != 0 ==> (byte & !(1u8 << k)) | (1u8 << k) == byte) by (bit_vector)
        requires
            k < 8,
    ;
}

/// Setting bit `k` of a byte sets that bit and no other, and clearing it
/// again gives back a byte that had it clear.
proof fn lemma_set_bit(byte: u8, k: u8, j: u8)
    requires
        k < 8,
        j < 8,
    ensures
        bit_is_set(byte | (1u8 << k), j) == (j == k || bit_is_set(byte, j)),
        !bit_is_set(byte, k) ==> (byte | (1u8 << k)) & !(1u8 << k) == byte,
{
    assert((byte | (1u8 << k)) & (1u8 << j) != 0 <==> (j == k || byte & (1u8 << j) != 0))
        by (bit_vector)
        requires
            k < 8,
            j < 8,
    ;
    assert(byte & (1u8 << k) == 0 ==> (byte | (1u8 << k)) & !(1u8 << k) == byte) by (bit_vector)
        requires
            k < 8,
    ;
}

/// What `first_free_from` finds is free, lies on the track at or above
/// `from`, and has no free sector between `from` and itself; where it finds
/// nothing, no sector of the track at or above `from` is free.
pub proof fn lemma_first_free_from(map: BamView, track: u8, from: int)
    requires
        0 <= from,
    ensures
        match map.first_free_from(track, from) {
            Some(sector) => from <= sector < sectors_on_track(track as int) && map.is_free(
                track,
                sector,
            ) && forall|lower: u8| from <= lower < sector ==> !map.is_free(track, lower),
            None => forall|sector: u8|
                from <= sector < sectors_on_track(track as int) ==> !map.is_free(track, sector),
        },
    decreases sectors_on_track(track as int) - from,
{
    if from < sectors_on_track(track as int) && !map.is_free(track, from as u8) {
        lemma_first_free_from(map, track, from + 1);
    }
}

/// `first_free_on` gives the lowest free sector of the track, and nothing
/// exactly when the track has none or is not a track of the map.
pub proof fn lemma_first_free_on(map: BamView, track: u8)
    ensures
        match map.first_free_on(track) {
            Some(sector) => valid_address(track as int, sector as int, map.tracks as int)
                && map.is_free(track, sector) && forall|lower: u8|
                lower < sector ==> !map.is_free(track, lower),
            None => forall|sector: u8|
                valid_address(track as int, sector as int, map.tracks as int) ==> !map.is_free(
                    track,
                    sector,
                ),
        },
{
    lemma_first_free_from(map, track, 0);
}

/// Beyond track 40 no track has a sector, so nothing is found there.
proof fn lemma_no_sector_beyond_track_40(map: BamView, track: int)
    requires
        track > 40 || track > map.tracks,
    ensures
        map.first_free_at_or_after(track) is None,
    decreases 256 - track,
{
    if 1 <= track <= map.tracks {
        assert(map.first_free_from(track as u8, 0) is None);
        lemma_no_sector_beyond_track_40(map, track + 1);
    }
}

/// What `first_free_at_or_after` finds is a free sector of the map on a
/// track not below `track`, and no free sector lies between `track` and it;
/// where it finds nothing, no sector from `track` upwards is free.
proof fn lemma_first_free_at_or_after(map: BamView, track: int)
    requires
        1 <= track,
    ensures
        match map.first_free_at_or_after(track) {
            Some(found) => track <= found.0 && valid_address(
                found.0 as int,
                found.1 as int,
                map.tracks as int,
            ) && map.is_free(found.0, found.1) && forall|t: u8, s: u8|
                track <= t && valid_address(t as int, s as int, map.tracks as int)
                    && #[trigger] map.is_free(t, s) ==> found.0 < t || (found.0 == t && found.1
                    <= s),
            None => forall|t: u8, s: u8|
                track <= t && valid_address(t as int, s as int, map.tracks as int)
                    ==> !#[trigger] map.is_free(t, s),
        },
    decreases 256 - track,
{
    if track <= map.tracks {
        lemma_first_free_on(map, track as u8);
        if map.first_free_on(track as u8) is None {
            lemma_first_free_at_or_after(map, track + 1);
        }
    }
}

/// `first_free` is the free sector that comes first in track order, and on
/// its track first in sector order; it is nothing exactly when the map has
/// no free sector.
pub proof fn lemma_first_free(map: BamView)
    ensures
        match map.first_free() {
            Some(found) => valid_address(found.0 as int, found.1 as int, map.tracks as int)
                && map.is_free(found.0, found.1) && forall|t: u8, s: u8|
                valid_address(t as int, s as int, map.tracks as int) && #[trigger] map.is_free(
                    t,
                    s,
                ) ==> found.0 < t || (found.0 == t && found.1 <= s),
            None => forall|t: u8, s: u8|
                valid_address(t as int, s as int, map.tracks as int) ==> !#[trigger] map.is_free(
                    t,
                    s,
                ),
        },
{
    lemma_first_free_at_or_after(map, 1);
}

/// Allocating touches one sector: afterwards that sector is not free, and
/// every other sector is free exactly if it was before.
pub proof fn lemma_allocated_touches_one_sector(
    map: BamView,
    track: u8,
    sector: u8,
    other_track: u8,
    other_sector: u8,
)
    requires
        map.wf(),
        valid_address(other_track as int, other_sector as int, map.tracks as int),
    ensures
        map.allocated(track, sector).wf(),
        map.allocated(track, sector).tracks == map.tracks,
        map.allocated(track, sector).disk_name == map.disk_name,
        map.allocated(track, sector).disk_id == map.disk_id,
        map.allocate_outcome(track, sector) is Ok && other_track == track && other_sector
            == sector ==> !map.allocated(track, sector).is_free(other_track, other_sector),
        other_track != track || other_sector != sector ==> map.allocated(track, sector).is_free(
            other_track,
            other_sector,
        ) == map.is_free(other_track, other_sector),
{
    if map.allocated(track, sector) != map {
        let byte = map.bitmap[track - 1][sector as int / 8];
        lemma_clear_bit(byte, sector % 8, other_sector % 8);
    }
}

/// Allocating a free sector and then freeing it gives back the very map,
/// bitmap and counter, that one started from.
pub proof fn lemma_allocate_then_free(map: BamView, track: u8, sector: u8)
    requires
        map.wf(),
        map.counts_agree(),
        valid_address(track as int, sector as int, map.tracks as int),
        map.is_free(track, sector),
    ensures
        map.allocate_outcome(track, sector) is Ok,
        !map.allocated(track, sector).is_free(track, sector),
        map.allocated(track, sector).free_count(track) == map.free_count(track) - 1,
        map.allocated(track, sector).free_outcome(track, sector) is Ok,
        map.allocated(track, sector).freed(track, sector) == map,
{
    assert(map.count_agrees(track));
    lemma_free_bits_bounds(map, track, sector, sectors_on_track(track as int));
    let byte = map.bitmap[track - 1][sector as int / 8];
    lemma_clear_bit(byte, sector % 8, sector % 8);
    assert(map.allocated(track, sector).freed(track, sector) =~~= map);
}

/// Freeing an allocated sector and then allocating it gives back the very
/// map, bitmap and counter, that one started from.
pub proof fn lemma_free_then_allocate(map: BamView, track: u8, sector: u8)
    requires
        map.wf(),
        map.counts_agree(),
        valid_address(track as int, sector as int, map.tracks as int),
        !map.is_free(track, sector),
    ensures
        map.free_outcome(track, sector) is Ok,
        map.freed(track, sector).is_free(track, sector),
        map.freed(track, sector).free_count(track) == map.free_count(track) + 1,
        map.freed(track, sector).allocate_outcome(track, sector) is Ok,
        map.freed(track, sector).allocated(track, sector) == map,
{
    assert(map.count_agrees(track));
    lemma_free_bits_bounds(map, track, sector, sectors_on_track(track as int));
    let byte = map.bitmap[track - 1][sector as int / 8];
    lemma_set_bit(byte, sector % 8, sector % 8);
    assert(map.freed(track, sector).allocated(track, sector) =~~= map);
}

/// Allocating twice is allocating once: the second call changes nothing
/// and, where the first succeeded, succeeds too.
pub proof fn lemma_allocate_twice(map: BamView, track: u8, sector: u8)
    requires
        map.wf(),
    ensures
        map.allocated(track, sector).allocated(track, sector) == map.allocated(track, sector),
        map.allocate_outcome(track, sector) is Ok ==> map.allocated(
            track,
            sector,
        ).allocate_outcome(track, sector) is Ok,
{
    if valid_address(track as int, sector as int, map.tracks as int) {
        let byte = map.bitmap[track - 1][sector as int / 8];
        lemma_clear_bit(byte, sector % 8, sector % 8);
    }
}

/// Freeing twice is freeing once: the second call changes nothing and,
/// where the first succeeded, succeeds too.
pub proof fn lemma_free_twice(map: BamView, track: u8, sector: u8)
    requires
        map.wf(),
    ensures
        map.freed(track, sector).freed(track, sector) == map.freed(track, sector),
        map.free_outcome(track, sector) is Ok ==> map.freed(track, sector).free_outcome(
            track,
            sector,
        ) is Ok,
{
    if valid_address(track as int, sector as int, map.tracks as int) {
        let byte = map.bitmap[track - 1][sector as int / 8];
        lemma_set_bit(byte, sector % 8, sector % 8);
    }
}

/// How a change of one bit and one counter shows in the number of free bits
/// below `n`: on another track not at all, on the same track by the
/// difference the changed bit makes, if it lies below `n`.
proof fn lemma_free_bits_after_change(
    map: BamView,
    track: u8,
    sector: u8,
    free: bool,
    count: u8,
    other: u8,
    n: int,
)
    requires
        map.wf(),
        1 <= track <= 40,
        sector < 24,
        1 <= other <= 40,
        0 <= n <= 24,
    ensures
        other != track ==> map.with_sector(track, sector, free, count).free_bits_below(other, n)
            == map.free_bits_below(other, n),
        other == track ==> map.with_sector(track, sector, free, count).free_bits_below(other, n)
            == map.free_bits_below(other, n) + if sector < n {
            (if free {
                1int
            } else {
                0int
            }) - (if map.is_free(track, sector) {
                1int
            } else {
                0int
            })
        } else {
            0int
        },
    decreases n,
{
    if n > 0 {
        lemma_free_bits_after_change(map, track, sector, free, count, other, n - 1);
        let j: u8 = (n - 1) as u8;
        let byte = map.bitmap[track - 1][sector as int / 8];
        if other == track && j / 8 == sector / 8 {
            lemma_clear_bit(byte, sector % 8, j % 8);
            lemma_set_bit(byte, sector % 8, j % 8);
        }
    }
}

/// The number of free bits below `n` lies between 0 and `n`, and a bit
/// below `n` that is free, or is not, moves the bound by one.
proof fn lemma_free_bits_bounds(map: BamView, track: u8, sector: u8, n: int)
    requires
        0 <= n,
    ensures
        0 <= map.free_bits_below(track, n) <= n,
        sector < n && map.is_free(track, sector) ==> map.free_bits_below(track, n) >= 1,
        sector < n && !map.is_free(track, sector) ==> map.free_bits_below(track, n) <= n - 1,
    decreases n,
{
    if n > 0 {
        lemma_free_bits_bounds(map, track, sector, n - 1);
    }
}

/// Allocating keeps the counters in agreement with the bitmap.
pub proof fn lemma_allocated_counts_agree(map: BamView, track: u8, sector: u8)
    requires
        map.wf(),
        map.counts_agree(),
    ensures
        map.allocated(track, sector).counts_agree(),
        map.allocate_outcome(track, sector) is Ok <==> valid_address(
            track as int,
            sector as int,
            map.tracks as int,
        ),
{
    let after = map.allocated(track, sector);
    assert(map.count_agrees(track));
    if valid_address(track as int, sector as int, map.tracks as int) {
        lemma_free_bits_bounds(map, track, sector, sectors_on_track(track as int));
    }
    assert forall|other: u8| #[trigger] after.count_agrees(other) by {
        assert(map.count_agrees(other));
        if after != map && 1 <= other <= 40 {
            lemma_free_bits_after_change(
                map,
                track,
                sector,
                false,
                (map.free_count(track) - 1) as u8,
                other,
                sectors_on_track(other as int),
            );
        }
    }
}

/// Freeing keeps the counters in agreement with the bitmap.
pub proof fn lemma_freed_counts_agree(map: BamView, track: u8, sector: u8)
    requires
        map.wf(),
        map.counts_agree(),
    ensures
        map.freed(track, sector).counts_agree(),
        map.free_outcome(track, sector) is Ok <==> valid_address(
            track as int,
            sector as int,
            map.tracks as int,
        ),
{
    let after = map.freed(track, sector);
    assert(map.count_agrees(track));
    if valid_address(track as int, sector as int, map.tracks as int) {
        lemma_free_bits_bounds(map, track, sector, sectors_on_track(track as int));
    }
    assert forall|other: u8| #[trigger] after.count_agrees(other) by {
        assert(map.count_agrees(other));
        if after != map && 1 <= other <= 40 {
            lemma_free_bits_after_change(
                map,
                track,
                sector,
                true,
                (map.free_count(track) + 1) as u8,
                other,
                sectors_on_track(other as int),
            );
        }
    }
}

/// The number of free sectors on the tracks up to `upto` is not negative,
/// and at least one where one of those tracks has a free sector.
proof fn lemma_free_on_tracks_bounds(map: BamView, upto: int, track: u8, sector: u8)
    requires
        0 <= upto <= 40,
    ensures
        0 <= map.free_on_tracks(upto),
        track <= upto && valid_address(track as int, sector as int, map.tracks as int)
            && map.is_free(track, sector) ==> map.free_on_tracks(upto) >= 1,
    decreases upto,
{
    if upto > 0 {
        lemma_free_on_tracks_bounds(map, upto - 1, track, sector);
        lemma_free_bits_bounds(map, upto as u8, sector, sectors_on_track(upto));
    }
}

/// Without a free sector on a track the number of its free bits is 0.
proof fn lemma_no_free_bits(map: BamView, track: u8, n: int)
    requires
        0 <= n <= sectors_on_track(track as int),
        1 <= track <= map.tracks,
        forall|sector: u8|
            valid_address(track as int, sector as int, map.tracks as int)
                ==> !#[trigger] map.is_free(track, sector),
    ensures
        map.free_bits_below(track, n) == 0,
    decreases n,
{
    if n > 0 {
        lemma_no_free_bits(map, track, n - 1);
        assert(!map.is_free(track, (n - 1) as u8));
    }
}

/// A map without a free sector has a total of 0.
proof fn lemma_free_on_tracks_of_full_map(map: BamView, upto: int)
    requires
        0 <= upto <= 40,
        forall|track: u8, sector: u8|
            valid_address(track as int, sector as int, map.tracks as int)
                ==> !#[trigger] map.is_free(track, sector),
    ensures
        map.free_on_tracks(upto) == 0,
    decreases upto,
{
    if upto > 0 {
        lemma_free_on_tracks_of_full_map(map, upto - 1);
        if upto <= map.tracks {
            lemma_no_free_bits(map, upto as u8, sectors_on_track(upto));
        }
    }
}

/// How allocating a free sector shows in the number of free sectors on the
/// tracks up to `upto`: one fewer, if the track of the sector is among them.
proof fn lemma_free_on_tracks_after_allocating(map: BamView, track: u8, sector: u8, upto: int)
    requires
        map.wf(),
        0 <= upto <= 40,
        valid_address(track as int, sector as int, map.tracks as int),
        map.is_free(track, sector),
        map.free_count(track) > 0,
    ensures
        map.allocated(track, sector).free_on_tracks(upto) == map.free_on_tracks(upto) - if track
            <= upto {
            1int
        } else {
            0int
        },
    decreases upto,
{
    if upto > 0 {
        lemma_free_on_tracks_after_allocating(map, track, sector, upto - 1);
        if upto <= map.tracks {
            lemma_free_bits_after_change(
                map,
                track,
                sector,
                false,
                (map.free_count(track) - 1) as u8,
                upto as u8,
                sectors_on_track(upto),
            );
        }
    }
}

/// The free sectors of a map are counted by `free_total`: it is 0 exactly
/// when `first_free` finds nothing, and allocating a free sector lowers it
/// by one.
pub proof fn lemma_free_total(map: BamView, track: u8, sector: u8)
    requires
        map.wf(),
    ensures
        0 <= map.free_total(),
        map.first_free() is None <==> map.free_total() == 0,
        valid_address(track as int, sector as int, map.tracks as int) && map.is_free(
            track,
            sector,
        ) && map.free_count(track) > 0 ==> map.allocated(track, sector).free_total()
            == map.free_total() - 1,
{
    lemma_first_free(map);
    lemma_free_on_tracks_bounds(map, 40, 0, 0);
    match map.first_free() {
        Some(found) => {
            lemma_free_on_tracks_bounds(map, 40, found.0, found.1);
        },
        None => {
            lemma_free_on_tracks_of_full_map(map, 40);
        },
    }
    if valid_address(track as int, sector as int, map.tracks as int) && map.is_free(track, sector)
        && map.free_count(track) > 0 {
        lemma_free_on_tracks_after_allocating(map, track, sector, 40);
    }
}

/// An encoded map is one sector long.
pub proof fn lemma_encoded_has_256_bytes(map: BamView)
    ensures
        encoded(map).len() == 256,
{
}

/// Whatever the 256 bytes of a sector are, the map decoded from them has
/// fields of the proper widths.
pub proof fn lemma_decoded_is_wf(data: Seq<u8>, tracks: u8)
    requires
        data.len() == 256,
    ensures
        decoded(data, tracks).wf(),
        decoded(data, tracks).tracks == tracks,
{
}

/// Decoding the sector that a map was encoded to gives the map back,
/// provided the map has at most 35 tracks (the entries of higher tracks
/// share their bytes with the label) and holds nothing beyond its tracks.
pub proof fn lemma_decode_encoded(map: BamView)
    requires
        map.wf(),
        map.tracks <= 35,
        map.is_trimmed(),
    ensures
        decoded(encoded(map), map.tracks) == map,
{
    let back = decoded(encoded(map), map.tracks);
    assert(back.free_sectors =~= map.free_sectors);
    assert(back.bitmap =~~= map.bitmap);
    assert(back.disk_name =~= map.disk_name);
    assert(back.disk_id =~= map.disk_id);
    assert(back =~= map);
}

/// Encoding keeps what the map says of a track up to 35, on images of
/// either size: decoded again, the track has the same counter and the same
/// sectors free.
pub proof fn lemma_decode_encoded_track(map: BamView, track: u8, sector: u8)
    requires
        map.wf(),
        1 <= track <= map.tracks,
        track <= 35,
    ensures
        decoded(encoded(map), map.tracks).free_count(track) == map.free_count(track),
        decoded(encoded(map), map.tracks).is_free(track, sector) == map.is_free(track, sector),
        sector < 24 ==> decoded(encoded(map), map.tracks).bitmap[track - 1][sector as int / 8]
            == map.bitmap[track - 1][sector as int / 8],
{
    let back = decoded(encoded(map), map.tracks);
    let t = track - 1;
    assert(back.free_sectors[t] == encoded(map)[4 + 4 * t]);
    assert(back.bitmap[t] =~= map.bitmap[t]);
}

} // verus!

//! The image store: the flat byte buffer of a disk, read and written one
//! sector at a time, and the operations that keep its availability map.

use crate::bam::{
    decoded, encoded, lemma_allocated_touches_one_sector, lemma_decode_encoded,
    lemma_decode_encoded_track, lemma_decoded_is_wf, BamView, BAM, DOS_TYPE,
};
use crate::error::D64Error;
use crate::geometry::{
    image_size, lemma_image_sizes, lemma_offset_in_image, lemma_sectors_before,
    lemma_sectors_disjoint, offset_of, sector_offset, sectors_before, sectors_on_track,
    sectors_per_track, valid_address, D64_35_TRACKS_SIZE, D64_40_TRACKS_SIZE, SECTOR_SIZE,
};
use crate::petscii::{padded, petscii_bytes};
use vstd::prelude::*;

verus! {

/// The track that holds the availability map and the directory.
pub const DIRECTORY_TRACK: u8 = 18;

/// The sector of the directory track that holds the availability map.
pub const BAM_SECTOR: u8 = 0;

/// The sector of the directory track at which the directory starts.
pub const FIRST_DIRECTORY_SECTOR: u8 = 1;

/// A disk image: the bytes of all its sectors in track order, and the number
/// of tracks it was made or loaded with.
pub struct D64 {
    pub data: Vec<u8>,
    pub tracks: u8,
}

/// The 256 bytes of sector `(track, sector)` of `image`.
pub open spec fn sector_at(image: Seq<u8>, track: int, sector: int) -> Seq<u8> {
    image.subrange(offset_of(track, sector), offset_of(track, sector) + 256)
}

/// `image` with the 256 bytes of sector `(track, sector)` replaced by
/// `block`, and every other byte kept.
pub open spec fn with_sector(image: Seq<u8>, track: int, sector: int, block: Seq<u8>) -> Seq<u8> {
    Seq::new(
        image.len(),
        |i: int|
            if offset_of(track, sector) <= i < offset_of(track, sector) + 256 {
                block[i - offset_of(track, sector)]
            } else {
                image[i]
            },
    )
}

/// An image of `tracks` tracks in which every byte is 0.
pub open spec fn blank_image(tracks: u8) -> Seq<u8> {
    Seq::new(image_size(tracks as int) as nat, |i: int| 0u8)
}

/// The availability map that `image` holds in its sector (18, 0).
pub open spec fn map_of(image: Seq<u8>, tracks: u8) -> BamView {
    decoded(sector_at(image, 18, 0), tracks)
}

/// `image` with `map` written to its sector (18, 0).
pub open spec fn with_map(image: Seq<u8>, map: BamView) -> Seq<u8> {
    with_sector(image, 18, 0, encoded(map))
}

/// The map of a freshly formatted disk: every sector of every track free,
/// but for track 18, which holds the map and the directory and counts as
/// used up.
pub open spec fn fresh_map(tracks: u8, name: Seq<char>, id: Seq<char>) -> BamView {
    BamView {
        tracks,
        free_sectors: Seq::new(
            40,
            |t: int|
                if t < tracks && t != 17 {
                    sectors_on_track(t + 1) as u8
                } else {
                    0u8
                },
        ),
        bitmap: Seq::new(
            40,
            |t: int|
                Seq::new(
                    3,
                    |k: int|
                        if t < tracks && t != 17 {
                            0xFFu8
                        } else {
                            0u8
                        },
                ),
        ),
        disk_name: padded(petscii_bytes(name), 16),
        disk_id: petscii_bytes(id).take(2),
        dos_type: DOS_TYPE,
    }
}

/// Whether `name` and `id` fit the label fields: at most 16 characters of
/// name, at least two of id.
pub open spec fn label_fits(name: Seq<char>, id: Seq<char>) -> bool {
    name.len() <= 16 && id.len() >= 2
}

/// A freshly formatted image: all bytes 0, but for the availability map in
/// sector (18, 0). The all-zero sector (18, 1) is the directory: it has no
/// successor and its slots are empty.
pub open spec fn formatted_image(tracks: u8, name: Seq<char>, id: Seq<char>) -> Seq<u8> {
    with_map(blank_image(tracks), fresh_map(tracks, name, id))
}

impl D64 {
    /// The image has one of the two supported geometries, and its buffer has
    /// exactly the bytes of that geometry.
    pub open spec fn wf(&self) -> bool {
        &&& self.tracks == 35 || self.tracks == 40
        &&& self.data@.len() == image_size(self.tracks as int)
    }

    /// A zero-filled image of 35 or 40 tracks; any other number of tracks is
    /// refused with `InvalidFileSize`.
    pub fn new(tracks: u8) -> (r: Result<D64, D64Error>)
        ensures
            tracks == 35 || tracks == 40 ==> (r matches Ok(image) && image.wf() && image.tracks
                == tracks && image.data@ == blank_image(tracks)),
            !(tracks == 35 || tracks == 40) ==> (r matches Err(e) && e
                == D64Error::InvalidFileSize),
    {
        if tracks != 35 && tracks != 40 {
            return Err(D64Error::InvalidFileSize);
        }
        let size: usize = if tracks == 35 {
            D64_35_TRACKS_SIZE
        } else {
            D64_40_TRACKS_SIZE
        };
        proof {
            lemma_image_sizes();
        }
        let data: Vec<u8> = vec![0u8; size];
        assert(data@ =~= blank_image(tracks));
        Ok(D64 { data, tracks })
    }

    /// Takes bytes that were read from a backing store as an image. The
    /// number of tracks follows from the length, which must be exactly that
    /// of a 35-track or of a 40-track image; any other length is refused
    /// with `InvalidFileSize`.
    pub fn from_bytes(data: Vec<u8>) -> (r: Result<D64, D64Error>)
        ensures
            data@.len() == D64_35_TRACKS_SIZE ==> (r matches Ok(image) && image.wf()
                && image.tracks == 35 && image.data@ == data@),
            data@.len() == D64_40_TRACKS_SIZE ==> (r matches Ok(image) && image.wf()
                && image.tracks == 40 && image.data@ == data@),
            data@.len() != D64_35_TRACKS_SIZE && data@.len() != D64_40_TRACKS_SIZE ==> (
            r matches Err(e) && e == D64Error::InvalidFileSize),
    {
        proof {
            lemma_image_sizes();
        }
        let length: usize = data.len();
        if length == D64_35_TRACKS_SIZE {
            Ok(D64 { data, tracks: 35 })
        } else if length == D64_40_TRACKS_SIZE {
            Ok(D64 { data, tracks: 40 })
        } else {
            Err(D64Error::InvalidFileSize)
        }
    }

    /// Byte offset of a sector of this image; `InvalidTrackSector` exactly
    /// when the address names none.
    pub fn sector_offset(&self, track: u8, sector: u8) -> (r: Result<usize, D64Error>)
        ensures
            valid_address(track as int, sector as int, self.tracks as int) ==> r == Ok::<
                usize,
                D64Error,
            >(offset_of(track as int, sector as int) as usize),
            !valid_address(track as int, sector as int, self.tracks as int) ==> r == Err::<
                usize,
                D64Error,
            >(D64Error::InvalidTrackSector),
            r matches Ok(offset) ==> offset == offset_of(track as int, sector as int) && offset
                + 256 <= image_size(self.tracks as int),
    {
        sector_offset(track, sector, self.tracks)
    }

    /// The 256 bytes of a sector; `InvalidTrackSector` exactly when the
    /// address names no sector of this image.
    pub fn read_sector(&self, track: u8, sector: u8) -> (r: Result<&[u8], D64Error>)
        requires
            self.wf(),
        ensures
            valid_address(track as int, sector as int, self.tracks as int) ==> (r matches Ok(
                block,
            ) && block@ == sector_at(self.data@, track as int, sector as int) && block@.len()
                == 256),
            !valid_address(track as int, sector as int, self.tracks as int) ==> (r matches Err(e)
                && e == D64Error::InvalidTrackSector),
    {
        proof {
            lemma_image_sizes();
        }
        match self.sector_offset(track, sector) {
            Ok(offset) => Ok(
                vstd::slice::slice_subrange(self.data.as_slice(), offset, offset + SECTOR_SIZE),
            ),
            Err(e) => Err(e),
        }
    }

    /// Replaces the 256 bytes of a sector by `data` and leaves every other
    /// byte of the image as it was. An address that names no sector of this
    /// image, or a block that is not 256 bytes long, is refused with
    /// `InvalidTrackSector`, and the image stays as it was.
    pub fn write_sector(&mut self, track: u8, sector: u8, data: &[u8]) -> (r: Result<
        (),
        D64Error,
    >)
        requires
            old(self).wf(),
        ensures
            final(self).wf(),
            final(self).tracks == old(self).tracks,
            valid_address(track as int, sector as int, old(self).tracks as int) && data@.len()
                == 256 ==> r == Ok::<(), D64Error>(()) && final(self).data@ == with_sector(
                old(self).data@,
                track as int,
                sector as int,
                data@,
            ),
            !valid_address(track as int, sector as int, old(self).tracks as int) || data@.len()
                != 256 ==> r == Err::<(), D64Error>(D64Error::InvalidTrackSector)
                && final(self).data@ == old(self).data@,
    {
        let offset: usize = match self.sector_offset(track, sector) {
            Ok(offset) => offset,
            Err(e) => {
                return Err(e);
            },
        };
        if data.len() != SECTOR_SIZE {
            return Err(D64Error::InvalidTrackSector);
        }
        let mut i: usize = 0;
        while i < SECTOR_SIZE
            invariant
                i <= 256,
                data@.len() == 256,
                offset == offset_of(track as int, sector as int),
                offset + 256 <= self.data@.len(),
                self.data@.len() == old(self).data@.len(),
                self.tracks == old(self).tracks,
                forall|j: int|
                    0 <= j < self.data@.len() ==> #[trigger] self.data@[j] == if offset <= j
                        < offset + i {
                        data@[j - offset]
                    } else {
                        old(self).data@[j]
                    },
            decreases 256 - i,
        {
            self.data[offset + i] = data[i];
            i += 1;
        }
        assert(self.data@ =~= with_sector(old(self).data@, track as int, sector as int, data@));
        Ok(())
    }

    /// Decodes the availability map from sector (18, 0).
    pub fn read_bam(&self) -> (r: Result<BAM, D64Error>)
        requires
            self.wf(),
        ensures
            r matches Ok(map) && map@ == map_of(self.data@, self.tracks),
    {
        match self.read_sector(DIRECTORY_TRACK, BAM_SECTOR) {
            Ok(block) => BAM::from_sector_data(block, self.tracks),
            Err(e) => Err(e),
        }
    }

    /// Encodes `bam` and writes it to sector (18, 0).
    pub fn write_bam(&mut self, bam: &BAM) -> (r: Result<(), D64Error>)
        requires
            old(self).wf(),
        ensures
            final(self).wf(),
            final(self).tracks == old(self).tracks,
            r == Ok::<(), D64Error>(()),
            final(self).data@ == with_map(old(self).data@, bam@),
    {
        let block = bam.to_sector_data();
        self.write_sector(DIRECTORY_TRACK, BAM_SECTOR, block.as_slice())
    }

    /// Marks a sector allocated in the availability map of the image.
    ///
    /// The map is decoded from sector (18, 0), changed as
    /// `BAM::allocate_sector` does, and written back. Where that reports an
    /// error, so does this, and the image stays as it was.
    pub fn allocate_sector(&mut self, track: u8, sector: u8) -> (r: Result<(), D64Error>)
        requires
            old(self).wf(),
        ensures
            final(self).wf(),
            final(self).tracks == old(self).tracks,
            r == map_of(old(self).data@, old(self).tracks).allocate_outcome(track, sector),
            !valid_address(track as int, sector as int, old(self).tracks as int) ==> r == Err::<
                (),
                D64Error,
            >(D64Error::InvalidTrackSector),
            r is Ok ==> final(self).data@ == with_map(
                old(self).data@,
                map_of(old(self).data@, old(self).tracks).allocated(track, sector),
            ),
            r is Err ==> final(self).data@ == old(self).data@,
    {
        let mut bam = match self.read_bam() {
            Ok(bam) => bam,
            Err(e) => {
                return Err(e);
            },
        };
        match bam.allocate_sector(track, sector) {
            Ok(()) => self.write_bam(&bam),
            Err(e) => Err(e),
        }
    }

    /// Marks a sector free in the availability map of the image.
    ///
    /// The map is decoded from sector (18, 0), changed as `BAM::free_sector`
    /// does, and written back. Where that reports an error, so does this,
    /// and the image stays as it was.
    pub fn free_sector(&mut self, track: u8, sector: u8) -> (r: Result<(), D64Error>)
        requires
            old(self).wf(),
        ensures
            final(self).wf(),
            final(self).tracks == old(self).tracks,
            r == map_of(old(self).data@, old(self).tracks).free_outcome(track, sector),
            !valid_address(track as int, sector as int, old(self).tracks as int) ==> r == Err::<
                (),
                D64Error,
            >(D64Error::InvalidTrackSector),
            r is Ok ==> final(self).data@ == with_map(
                old(self).data@,
                map_of(old(self).data@, old(self).tracks).freed(track, sector),
            ),
            r is Err ==> final(self).data@ == old(self).data@,
    {
        let mut bam = match self.read_bam() {
            Ok(bam) => bam,
            Err(e) => {
                return Err(e);
            },
        };
        match bam.free_sector(track, sector) {
            Ok(()) => self.write_bam(&bam),
            Err(e) => Err(e),
        }
    }

    /// The first sector that the availability map of the image marks free,
    /// tracks in rising order; `DiskFull` exactly when it marks none.
    pub fn find_free_sector(&self) -> (r: Result<(u8, u8), D64Error>)
        requires
            self.wf(),
        ensures
            match map_of(self.data@, self.tracks).first_free() {
                Some(found) => r == Ok::<(u8, u8), D64Error>(found),
                None => r == Err::<(u8, u8), D64Error>(D64Error::DiskFull),
            },
            r matches Ok(found) ==> valid_address(
                found.0 as int,
                found.1 as int,
                self.tracks as int,
            ) && map_of(self.data@, self.tracks).is_free(found.0, found.1),
    {
        let bam = match self.read_bam() {
            Ok(bam) => bam,
            Err(e) => {
                return Err(e);
            },
        };
        match bam.find_first_free() {
            Some(found) => Ok(found),
            None => Err(D64Error::DiskFull),
        }
    }

    /// Formats the image: every byte becomes 0, then a fresh availability
    /// map with the given label goes to sector (18, 0). The zeroed sector
    /// (18, 1) is the empty directory.
    ///
    /// A name of more than 16 characters or an id of fewer than two does not
    /// fit the label: it is refused with `InvalidTrackSector` and the image
    /// stays as it was.
    pub fn format(&mut self, disk_name: &str, disk_id: &str) -> (r: Result<(), D64Error>)
        requires
            old(self).wf(),
        ensures
            final(self).wf(),
            final(self).tracks == old(self).tracks,
            label_fits(disk_name@, disk_id@) ==> r is Ok && final(self).data@ == formatted_image(
                old(self).tracks,
                disk_name@,
                disk_id@,
            ),
            !label_fits(disk_name@, disk_id@) ==> r == Err::<(), D64Error>(
                D64Error::InvalidTrackSector,
            ) && final(self).data@ == old(self).data@,
    {
        let mut bam = BAM {
            tracks: self.tracks,
            free_sectors: [0;40],
            bitmap: [[0;3];40],
            disk_name: [0;16],
            disk_id: [0;2],
            dos_type: DOS_TYPE,
        };
        let mut track: u8 = 1;
        while track <= self.tracks
            invariant
                1 <= track <= self.tracks + 1,
                self.tracks <= 40,
                bam.tracks == self.tracks,
                bam.dos_type == DOS_TYPE,
                forall|t: int|
                    0 <= t < 40 ==> #[trigger] bam.free_sectors[t] == if t < track - 1 && t != 17 {
                        sectors_on_track(t + 1) as u8
                    } else {
                        0u8
                    },
                forall|t: int, k: int|
                    0 <= t < 40 && 0 <= k < 3 ==> #[trigger] bam.bitmap[t][k] == if t < track - 1
                        && t != 17 {
                        0xFFu8
                    } else {
                        0u8
                    },
            decreases self.tracks + 1 - track,
        {
            if track != DIRECTORY_TRACK {
                let index: usize = (track - 1) as usize;
                bam.free_sectors[index] = sectors_per_track(track);
                bam.bitmap[index][0] = 0xFF;
                bam.bitmap[index][1] = 0xFF;
                bam.bitmap[index][2] = 0xFF;
            }
            track += 1;
        }
        proof {
            assert(bam@.free_sectors =~= fresh_map(
                self.tracks,
                disk_name@,
                disk_id@,
            ).free_sectors);
            assert(bam@.bitmap =~~= fresh_map(self.tracks, disk_name@, disk_id@).bitmap);
        }
        match bam.set_disk_name(disk_name) {
            Ok(()) => {},
            Err(e) => {
                return Err(e);
            },
        }
        match bam.set_disk_id(disk_id) {
            Ok(()) => {},
            Err(e) => {
                return Err(e);
            },
        }
        proof {
            lemma_image_sizes();
            assert(bam@ =~= fresh_map(self.tracks, disk_name@, disk_id@));
        }
        self.data = vec![0u8; self.data.len()];
        assert(self.data@ =~= blank_image(self.tracks));
        self.write_bam(&bam)
    }
}

/// Writing a sector makes it the block that was written and leaves every
/// other sector of the image as it was.
pub proof fn lemma_with_sector(
    image: Seq<u8>,
    tracks: int,
    track: int,
    sector: int,
    block: Seq<u8>,
    other_track: int,
    other_sector: int,
)
    requires
        image.len() == image_size(tracks),
        valid_address(track, sector, tracks),
        valid_address(other_track, other_sector, tracks),
        block.len() == 256,
    ensures
        with_sector(image, track, sector, block).len() == image.len(),
        other_track == track && other_sector == sector ==> sector_at(
            with_sector(image, track, sector, block),
            other_track,
            other_sector,
        ) == block,
        other_track != track || other_sector != sector ==> sector_at(
            with_sector(image, track, sector, block),
            other_track,
            other_sector,
        ) == sector_at(image, other_track, other_sector),
{
    lemma_offset_in_image(track, sector, tracks);
    lemma_offset_in_image(other_track, other_sector, tracks);
    let after = with_sector(image, track, sector, block);
    if other_track == track && other_sector == sector {
        assert(sector_at(after, other_track, other_sector) =~= block);
    } else {
        lemma_sectors_disjoint(track, sector, other_track, other_sector, tracks);
        assert(sector_at(after, other_track, other_sector) =~= sector_at(
            image,
            other_track,
            other_sector,
        ));
    }
}

/// What was written is read. The map read back from an image to which
/// `map` was written carries the label and the format marker of `map`, and
/// says of every track up to 35 what `map` says: the same counter, the same
/// sectors free. (The entries of tracks 36 to 40 share their bytes with the
/// label and are not kept.) On 35 tracks a map that holds nothing beyond
/// its tracks is read back whole.
pub proof fn lemma_read_written_map(
    image: Seq<u8>,
    tracks: u8,
    map: BamView,
    track: u8,
    sector: u8,
)
    requires
        tracks == 35 || tracks == 40,
        image.len() == image_size(tracks as int),
        map.wf(),
        map.tracks == tracks,
    ensures
        sector_at(with_map(image, map), 18, 0) == encoded(map),
        map_of(with_map(image, map), tracks).disk_name == map.disk_name,
        map_of(with_map(image, map), tracks).disk_id == map.disk_id,
        map_of(with_map(image, map), tracks).dos_type == map.dos_type,
        1 <= track <= 35 ==> map_of(with_map(image, map), tracks).free_count(track)
            == map.free_count(track) && map_of(with_map(image, map), tracks).is_free(
            track,
            sector,
        ) == map.is_free(track, sector),
        tracks == 35 && map.is_trimmed() ==> map_of(with_map(image, map), tracks) == map,
{
    lemma_sectors_before(18);
    lemma_offset_in_image(18, 0, tracks as int);
    lemma_with_sector(image, tracks as int, 18, 0, encoded(map), 18, 0);
    let back = map_of(with_map(image, map), tracks);
    assert(back.disk_name =~= map.disk_name);
    assert(back.disk_id =~= map.disk_id);
    if 1 <= track <= 35 {
        lemma_decode_encoded_track(map, track, sector);
    }
    if tracks == 35 && map.is_trimmed() {
        lemma_decode_encoded(map);
    }
}

/// Allocating in the image shows in the map read back. After
/// `allocate_sector` has succeeded on an image, the map of the image says of
/// every track up to 35 what the map before said, but for the sector that
/// was allocated, which is not free.
pub proof fn lemma_image_allocate_then_read(
    image: Seq<u8>,
    tracks: u8,
    track: u8,
    sector: u8,
    other_track: u8,
    other_sector: u8,
)
    requires
        tracks == 35 || tracks == 40,
        image.len() == image_size(tracks as int),
        map_of(image, tracks).allocate_outcome(track, sector) is Ok,
        valid_address(other_track as int, other_sector as int, tracks as int),
        other_track <= 35,
    ensures
        ({
            let after = with_map(image, map_of(image, tracks).allocated(track, sector));
            &&& other_track == track && other_sector == sector ==> !map_of(after, tracks).is_free(
                other_track,
                other_sector,
            )
            &&& other_track != track || other_sector != sector ==> map_of(after, tracks).is_free(
                other_track,
                other_sector,
            ) == map_of(image, tracks).is_free(other_track, other_sector)
        }),
{
    let map = map_of(image, tracks);
    lemma_sectors_before(18);
    lemma_offset_in_image(18, 0, tracks as int);
    lemma_decoded_is_wf(sector_at(image, 18, 0), tracks);
    lemma_allocated_touches_one_sector(map, track, sector, other_track, other_sector);
    lemma_read_written_map(
        image,
        tracks,
        map.allocated(track, sector),
        other_track,
        other_sector,
    );
}

/// On a freshly formatted map of at most 40 tracks every counter agrees
/// with its bitmap.
pub proof fn lemma_fresh_map_counts_agree(tracks: u8, name: Seq<char>, id: Seq<char>)
    requires
        tracks <= 40,
    ensures
        fresh_map(tracks, name, id).counts_agree(),
{
    let map = fresh_map(tracks, name, id);
    assert forall|track: u8| #[trigger] map.count_agrees(track) by {
        if 1 <= track <= tracks {
            assert(track != 18 ==> map.bitmap[track - 1] =~= seq![0xFFu8, 0xFFu8, 0xFFu8]);
            assert(track == 18 ==> map.bitmap[track - 1] =~= seq![0u8, 0u8, 0u8]);
            lemma_fresh_track_bits(map, track, sectors_on_track(track as int));
        }
    }
}

/// On a track whose three bitmap bytes are all 0xFF the first `n` sectors
/// are all free, and on one whose bytes are all 0 none is.
proof fn lemma_fresh_track_bits(map: BamView, track: u8, n: int)
    requires
        1 <= track <= 40,
        0 <= n <= 24,
        map.bitmap.len() == 40,
        map.bitmap[track - 1].len() == 3,
    ensures
        map.bitmap[track - 1] == seq![0xFFu8, 0xFFu8, 0xFFu8] ==> map.free_bits_below(track, n)
            == n,
        map.bitmap[track - 1] == seq![0u8, 0u8, 0u8] ==> map.free_bits_below(track, n) == 0,
    decreases n,
{
    if n > 0 {
        lemma_fresh_track_bits(map, track, n - 1);
        let sector: u8 = (n - 1) as u8;
        let bit: u8 = sector % 8;
        assert(0xFFu8 & (1u8 << bit) != 0) by (bit_vector)
            requires
                bit < 8,
        ;
        assert(0u8 & (1u8 << bit) == 0) by (bit_vector);
    }
}

/// The free sectors of a fresh map on the tracks up to `upto`: all sectors
/// of those tracks, less the 19 of track 18.
proof fn lemma_fresh_free_on_tracks(tracks: u8, name: Seq<char>, id: Seq<char>, upto: int)
    requires
        tracks <= 40,
        0 <= upto <= tracks,
    ensures
        fresh_map(tracks, name, id).free_on_tracks(upto) == sectors_before(upto + 1) - if upto
            >= 18 {
            19int
        } else {
            0int
        },
    decreases upto,
{
    let map = fresh_map(tracks, name, id);
    if upto > 0 {
        lemma_fresh_free_on_tracks(tracks, name, id, upto - 1);
        let track = upto as u8;
        assert(track != 18 ==> map.bitmap[track - 1] =~= seq![0xFFu8, 0xFFu8, 0xFFu8]);
        assert(track == 18 ==> map.bitmap[track - 1] =~= seq![0u8, 0u8, 0u8]);
        lemma_fresh_track_bits(map, track, sectors_on_track(upto));
    }
}

/// Tracks beyond those of the map add no free sector to its total.
proof fn lemma_free_on_tracks_beyond(map: BamView, upto: int)
    requires
        map.tracks <= upto,
    ensures
        map.free_on_tracks(upto) == map.free_on_tracks(map.tracks as int),
    decreases upto,
{
    if map.tracks < upto {
        lemma_free_on_tracks_beyond(map, upto - 1);
    }
}

/// A freshly formatted disk of 35 tracks has 664 free sectors: the 683 of
/// the image less the 19 of track 18.
pub proof fn lemma_fresh_disk_has_664_free_sectors(name: Seq<char>, id: Seq<char>)
    ensures
        fresh_map(35, name, id).free_total() == 664,
{
    lemma_fresh_free_on_tracks(35, name, id, 35);
    lemma_free_on_tracks_beyond(fresh_map(35, name, id), 40);
    lemma_sectors_before(36);
}

/// The map of a freshly formatted image of either size, track by track up
/// to 35: on track 18 no sector is free and the counter is 0, on every
/// other track all sectors are free and the counter is their number.
pub proof fn lemma_formatted_tracks(
    tracks: u8,
    name: Seq<char>,
    id: Seq<char>,
    track: u8,
    sector: u8,
)
    requires
        tracks == 35 || tracks == 40,
        label_fits(name, id),
        valid_address(track as int, sector as int, tracks as int),
        track <= 35,
    ensures
        map_of(formatted_image(tracks, name, id), tracks).is_free(track, sector) == (track != 18),
        map_of(formatted_image(tracks, name, id), tracks).free_count(track) == if track == 18 {
            0
        } else {
            sectors_on_track(track as int)
        },
{
    lemma_image_sizes();
    lemma_read_written_map(blank_image(tracks), tracks, fresh_map(tracks, name, id), track, sector);
    let bit: u8 = sector % 8;
    assert(0xFFu8 & (1u8 << bit) != 0) by (bit_vector)
        requires
            bit < 8,
    ;
    assert(0u8 & (1u8 << bit) == 0) by (bit_vector);
}

/// Reading the map back from a freshly formatted image of 35 tracks gives
/// the fresh map: all tracks but 18 wholly free, and the label as given.
pub proof fn lemma_map_of_formatted_image(name: Seq<char>, id: Seq<char>)
    requires
        label_fits(name, id),
    ensures
        map_of(formatted_image(35, name, id), 35) == fresh_map(35, name, id),
{
    let map = fresh_map(35, name, id);
    lemma_image_sizes();
    lemma_offset_in_image(18, 0, 35);
    assert(sector_at(formatted_image(35, name, id), 18, 0) =~= encoded(map));
    lemma_decode_encoded(map);
}

} // verus!

//! The directory: a chain of sectors on track 18, each with eight slots of
//! 32 bytes that name a file and point at its first data sector.

use crate::error::D64Error;
use crate::geometry::{
    image_size, lemma_distinct_numbers_are_few, lemma_image_sizes, lemma_offset_in_image,
    lemma_sectors_before, lemma_sectors_disjoint, offset_of, valid_address,
    D64_35_TRACKS_SIZE, SECTORS_BEFORE_TRACK, SECTOR_SIZE,
};
use crate::image::{formatted_image, sector_at, D64, DIRECTORY_TRACK, FIRST_DIRECTORY_SECTOR};
use crate::petscii::{
    ascii_to_petscii, decode_field, field_text, lemma_encoded_text_has_no_fill,
    lemma_field_text_of_padded, padded, petscii_bytes, petscii_to_char, stored_name, text_end,
    to_ascii, FILL_BYTE,
};
use std::collections::HashSet;
use vstd::prelude::*;

verus! {

broadcast use vstd::std_specs::hash::group_hash_axioms;

/// The file type of a closed program file, which new entries get.
pub const CLOSED_FILE: u8 = 0x82;

/// Sectors on the directory track.
pub const DIRECTORY_SECTORS: u8 = 19;

/// The link that the first two bytes of a sector hold: track and sector of
/// its successor.
pub open spec fn link_of(image: Seq<u8>, track: int, sector: int) -> (u8, u8) {
    (image[offset_of(track, sector)], image[offset_of(track, sector) + 1])
}

/// Follows the directory chain from the last sector of `path`, which holds
/// the sectors walked so far, and tells the sectors of the whole walk and
/// whether it ended cleanly.
///
/// The walk ends cleanly at a sector whose link has track 0 or points back
/// at (18, 1). It ends in corruption at a link that leaves track 18, names
/// no sector of it, or leads to a sector already walked. Nineteen sectors
/// are all that track 18 has, so no walk is longer; the limit is there for
/// the recursion to end and decides nothing (`lemma_walk_has_room`).
pub open spec fn directory_walk(image: Seq<u8>, path: Seq<u8>) -> (Seq<u8>, bool)
    decreases 19 - path.len(),
{
    let (next_track, next_sector) = link_of(image, 18, path.last() as int);
    if next_track == 0 || (next_track == 18 && next_sector == 1) {
        (path, true)
    } else if next_track != 18 || next_sector >= 19 || path.contains(next_sector) || path.len()
        >= 19 {
        (path, false)
    } else {
        directory_walk(image, path.push(next_sector))
    }
}

/// The sectors of the directory in the order of the chain, from (18, 1) to
/// the sector at which the walk ends.
pub open spec fn directory_chain(image: Seq<u8>) -> Seq<u8> {
    directory_walk(image, seq![1u8]).0
}

/// Whether the directory chain ends cleanly.
pub open spec fn directory_is_sound(image: Seq<u8>) -> bool {
    directory_walk(image, seq![1u8]).1
}

/// The 32 bytes of slot `slot` of directory sector `sector`.
pub open spec fn slot_at(image: Seq<u8>, sector: int, slot: int) -> Seq<u8> {
    image.subrange(offset_of(18, sector) + 32 * slot, offset_of(18, sector) + 32 * slot + 32)
}

/// `image` with `entry` written to slot `slot` of directory sector `sector`.
/// An entry occupies the slot from its byte 2 on: bytes 2 to 31 of the slot
/// become those of `entry`. The first two bytes of the slot, which in the
/// first slot are the link of the sector, stay, as does every other byte.
pub open spec fn with_slot(image: Seq<u8>, sector: int, slot: int, entry: Seq<u8>) -> Seq<u8> {
    Seq::new(
        image.len(),
        |i: int|
            if offset_of(18, sector) + 32 * slot + 2 <= i < offset_of(18, sector) + 32 * slot
                + 32 {
                entry[i - offset_of(18, sector) - 32 * slot]
            } else {
                image[i]
            },
    )
}

/// How many slots the directory has: eight in each sector of its chain.
pub open spec fn slot_count(image: Seq<u8>) -> int {
    8 * (directory_chain(image).len() as int)
}

/// The `n`-th slot of the directory, counting along the chain.
pub open spec fn slot_number(image: Seq<u8>, n: int) -> Seq<u8> {
    slot_at(image, directory_chain(image)[n / 8] as int, n % 8)
}

/// An empty slot: file type 0.
pub open spec fn entry_is_empty(entry: Seq<u8>) -> bool {
    entry[2] == 0
}

/// A slot that names a file: the low three bits of its file type are not
/// all zero. Empty and scratched slots are not listed.
pub open spec fn entry_is_listed(entry: Seq<u8>) -> bool {
    entry[2] & 0x07 != 0
}

/// Track and sector of the first data sector of the file a slot names.
pub open spec fn entry_start(entry: Seq<u8>) -> (u8, u8) {
    (entry[3], entry[4])
}

/// The name in a slot: bytes 5 to 20 up to the first fill byte, decoded.
pub open spec fn entry_name(entry: Seq<u8>) -> Seq<char> {
    field_text(entry.subrange(5, 21))
}

/// Index of the first character of `text` at or after `from` that is no
/// space, or the length of `text` where there is none.
pub open spec fn spaces_end(text: Seq<char>, from: int) -> int
    decreases text.len() - from,
{
    if from < 0 || from >= text.len() {
        text.len() as int
    } else if text[from] != ' ' {
        from
    } else {
        spaces_end(text, from + 1)
    }
}

/// Index just behind the last character of `text` before `to` that is no
/// space, or `floor` where there is none at or after `floor`.
pub open spec fn text_stop(text: Seq<char>, floor: int, to: int) -> int
    decreases to - floor,
{
    if to <= floor || to > text.len() {
        floor
    } else if text[to - 1] != ' ' {
        to
    } else {
        text_stop(text, floor, to - 1)
    }
}

/// `text` without the spaces at its start and at its end.
pub open spec fn trimmed(text: Seq<char>) -> Seq<char> {
    text.subrange(spaces_end(text, 0), text_stop(text, spaces_end(text, 0), text.len() as int))
}

/// Whether a slot names the file `name`: it is listed, and its name without
/// the spaces around it is `name`.
pub open spec fn entry_matches(entry: Seq<u8>, name: Seq<char>) -> bool {
    entry_is_listed(entry) && trimmed(entry_name(entry)) == name
}

/// The names of the listed slots among the first `upto` slots of the
/// directory, in the order of the slots.
pub open spec fn listed_names(image: Seq<u8>, upto: int) -> Seq<Seq<char>>
    decreases upto,
{
    if upto <= 0 {
        Seq::empty()
    } else if entry_is_listed(slot_number(image, upto - 1)) {
        listed_names(image, upto - 1).push(entry_name(slot_number(image, upto - 1)))
    } else {
        listed_names(image, upto - 1)
    }
}

/// All names that the directory lists, in the order of its slots.
pub open spec fn file_names(image: Seq<u8>) -> Seq<Seq<char>> {
    listed_names(image, slot_count(image))
}

/// Number of the first slot at or after `from` that names the file `name`.
pub open spec fn first_match(image: Seq<u8>, name: Seq<char>, from: int) -> Option<int>
    decreases slot_count(image) - from,
{
    if from < 0 || from >= slot_count(image) {
        None
    } else if entry_matches(slot_number(image, from), name) {
        Some(from)
    } else {
        first_match(image, name, from + 1)
    }
}

/// Number of the first empty slot at or after `from`.
pub open spec fn first_empty(image: Seq<u8>, from: int) -> Option<int>
    decreases slot_count(image) - from,
{
    if from < 0 || from >= slot_count(image) {
        None
    } else if entry_is_empty(slot_number(image, from)) {
        Some(from)
    } else {
        first_empty(image, from + 1)
    }
}

/// What `find_file` gives: the start of the first slot that names the file;
/// without such a slot `FileNotFound`, or `Corrupt` where the chain did not
/// end cleanly and may hide the file.
pub open spec fn found_file(image: Seq<u8>, name: Seq<char>) -> Result<(u8, u8), D64Error> {
    match first_match(image, name, 0) {
        Some(n) => Ok(entry_start(slot_number(image, n))),
        None => if directory_is_sound(image) {
            Err(D64Error::FileNotFound)
        } else {
            Err(D64Error::Corrupt)
        },
    }
}

/// The slot of a closed file `name` that starts at `(track, sector)`: file
/// type at byte 2, start at bytes 3 and 4, the padded name from byte 5 on,
/// all else 0.
pub open spec fn new_entry(name: Seq<char>, track: u8, sector: u8) -> Seq<u8> {
    Seq::new(
        32,
        |i: int|
            if i == 2 {
                CLOSED_FILE
            } else if i == 3 {
                track
            } else if i == 4 {
                sector
            } else if 5 <= i < 21 {
                padded(petscii_bytes(name), 16)[i - 5]
            } else {
                0u8
            },
    )
}

/// What `write_dir_entry` reports: success where the directory has an
/// empty slot; without one `DiskFull`, or `Corrupt` where the chain did not
/// end cleanly.
pub open spec fn append_outcome(image: Seq<u8>) -> Result<(), D64Error> {
    match first_empty(image, 0) {
        Some(n) => Ok(()),
        None => if directory_is_sound(image) {
            Err(D64Error::DiskFull)
        } else {
            Err(D64Error::Corrupt)
        },
    }
}

/// The image after `write_dir_entry`: `entry` is written to the first empty
/// slot; without one the image is unchanged.
pub open spec fn with_appended(image: Seq<u8>, entry: Seq<u8>) -> Seq<u8> {
    match first_empty(image, 0) {
        Some(n) => with_slot(image, directory_chain(image)[n / 8] as int, n % 8, entry),
        None => image,
    }
}

/// Byte offset of sector `sector` of the directory track in an image of
/// either size.
fn directory_offset(sector: u8) -> (offset: usize)
    requires
        sector < 19,
    ensures
        offset == offset_of(18, sector as int),
        offset + 256 <= D64_35_TRACKS_SIZE,
{
    proof {
        lemma_sectors_before(18);
        lemma_sectors_before(19);
        lemma_offset_in_image(18, sector as int, 35);
        lemma_image_sizes();
    }
    (SECTORS_BEFORE_TRACK[(DIRECTORY_TRACK - 1) as usize] as usize + sector as usize)
        * SECTOR_SIZE
}

/// The characters of a text, one by one.
pub fn chars_of(text: &str) -> (chars: Vec<char>)
    ensures
        chars@ == text@,
{
    let mut chars: Vec<char> = Vec::new();
    for c in it: text.chars()
        invariant
            chars@ == text@.take(it.index() as int),
            it.seq() == text@,
    {
        chars.push(c);
        assert(chars@ =~= text@.take(it.index() + 1));
    }
    assert(text@.take(text@.len() as int) =~= text@);
    chars
}

/// Whether the name in the 32 bytes of a slot, without the spaces around
/// it, is `name`.
fn name_matches(entry: &[u8], name: &Vec<char>) -> (r: bool)
    requires
        entry@.len() == 32,
    ensures
        r == (trimmed(entry_name(entry@)) == name@),
{
    let field = vstd::slice::slice_subrange(entry, 5, 21);
    let mut end: usize = 0;
    while end < 16 && field[end] != FILL_BYTE
        invariant
            end <= 16,
            field@.len() == 16,
            text_end(field@, 0) == text_end(field@, end as int),
        decreases 16 - end,
    {
        end += 1;
    }
    let ghost text = entry_name(entry@);
    assert(text.len() == end);
    assert(forall|i: int| 0 <= i < end ==> text[i] == to_ascii(field@[i]));
    let mut start: usize = 0;
    while start < end && field[start] == 0x20
        invariant
            start <= end <= 16,
            field@.len() == 16,
            text.len() == end,
            forall|i: int| 0 <= i < end ==> text[i] == to_ascii(field@[i]),
            spaces_end(text, 0) == spaces_end(text, start as int),
        decreases end - start,
    {
        start += 1;
    }
    let mut stop: usize = end;
    while stop > start && field[stop - 1] == 0x20
        invariant
            start <= stop <= end <= 16,
            field@.len() == 16,
            text.len() == end,
            forall|i: int| 0 <= i < end ==> text[i] == to_ascii(field@[i]),
            text_stop(text, start as int, end as int) == text_stop(text, start as int, stop as int),
        decreases stop,
    {
        stop -= 1;
    }
    assert(start == spaces_end(text, 0));
    assert(stop == text_stop(text, start as int, end as int));
    let ghost want = trimmed(text);
    assert(want.len() == stop - start);
    if name.len() != stop - start {
        return false;
    }
    let mut i: usize = 0;
    while i < stop - start
        invariant
            start <= stop <= 16,
            i <= stop - start,
            field@.len() == 16,
            want == trimmed(entry_name(entry@)),
            want.len() == stop - start,
            name@.len() == stop - start,
            forall|j: int|
                0 <= j < stop - start ==> want[j] == to_ascii(field@[start + j]),
            forall|j: int| 0 <= j < i ==> want[j] == name@[j],
        decreases stop - start - i,
    {
        if petscii_to_char(field[start + i]) != name[i] {
            assert(want[i as int] != name@[i as int]);
            return false;
        }
        i += 1;
    }
    assert(want =~= name@);
    true
}

impl D64 {
    /// Walks the directory chain once and gives its sectors and whether the
    /// walk ended cleanly. A set of the sectors visited is kept, so that a
    /// link back into the chain is seen. Every operation on the directory
    /// goes by this one walk, so all of them end it alike.
    pub fn directory_sectors(&self) -> (r: (Vec<u8>, bool))
        requires
            self.wf(),
        ensures
            r.0@ == directory_chain(self.data@),
            r.1 == directory_is_sound(self.data@),
            1 <= r.0@.len() <= 19,
            forall|i: int| 0 <= i < r.0@.len() ==> #[trigger] r.0@[i] < 19,
    {
        let mut path: Vec<u8> = Vec::new();
        let mut visited: HashSet<u8> = HashSet::new();
        path.push(FIRST_DIRECTORY_SECTOR);
        visited.insert(FIRST_DIRECTORY_SECTOR);
        let mut sector: u8 = FIRST_DIRECTORY_SECTOR;
        proof {
            assert(path@ =~= seq![1u8]);
            assert(path@[0] == 1u8);
        }
        loop
            invariant
                self.wf(),
                1 <= path@.len() <= 19,
                sector == path@.last(),
                path@.no_duplicates(),
                forall|i: int| 0 <= i < path@.len() ==> #[trigger] path@[i] < 19,
                forall|s: u8| #[trigger] visited@.contains(s) <==> path@.contains(s),
                directory_walk(self.data@, seq![1u8]) == directory_walk(self.data@, path@),
            decreases 19 - path@.len(),
        {
            proof {
                lemma_image_sizes();
            }
            let offset: usize = directory_offset(sector);
            let next_track: u8 = self.data[offset];
            let next_sector: u8 = self.data[offset + 1];
            if next_track == 0 || (next_track == DIRECTORY_TRACK && next_sector
                == FIRST_DIRECTORY_SECTOR) {
                return (path, true);
            }
            if next_track != DIRECTORY_TRACK || next_sector >= DIRECTORY_SECTORS
                || visited.contains(&next_sector) {
                return (path, false);
            }
            proof {
                lemma_walk_has_room(path@, next_sector);
            }
            let ghost before = path@;
            path.push(next_sector);
            visited.insert(next_sector);
            sector = next_sector;
            proof {
                assert forall|i: int, j: int|
                    0 <= i < path@.len() && 0 <= j < path@.len() && i != j implies path@[i]
                    != path@[j] by {
                    if i < before.len() && j < before.len() {
                        assert(before[i] != before[j]);
                    } else if i < before.len() {
                        assert(before.contains(before[i]));
                    } else {
                        assert(before.contains(before[j]));
                    }
                }
                assert forall|s: u8| #[trigger] visited@.contains(s) <==> path@.contains(s) by {
                    if s == next_sector {
                        assert(path@[path@.len() - 1] == s);
                    } else if before.contains(s) {
                        let i = choose|i: int| 0 <= i < before.len() && before[i] == s;
                        assert(path@[i] == s);
                    }
                }
            }
        }
    }

    /// The 32 bytes of slot `slot` of directory sector `sector`.
    fn read_slot(&self, sector: u8, slot: usize) -> (entry: &[u8])
        requires
            self.wf(),
            sector < 19,
            slot < 8,
        ensures
            entry@ == slot_at(self.data@, sector as int, slot as int),
            entry@.len() == 32,
    {
        proof {
            lemma_image_sizes();
        }
        let start: usize = directory_offset(sector) + 32 * slot;
        vstd::slice::slice_subrange(self.data.as_slice(), start, start + 32)
    }

    /// The names of the files in the directory, in the order of its slots.
    ///
    /// Empty slots and scratched ones (file type with the low three bits
    /// zero) are passed over. A name ends at the first fill byte of its
    /// field. A directory chain that does not end cleanly gives `Corrupt`.
    pub fn list_files(&self) -> (r: Result<Vec<String>, D64Error>)
        requires
            self.wf(),
        ensures
            directory_is_sound(self.data@) ==> (r matches Ok(names) && names.deep_view()
                == file_names(self.data@)),
            !directory_is_sound(self.data@) ==> (r matches Err(e) && e == D64Error::Corrupt),
    {
        let (chain, sound) = self.directory_sectors();
        if !sound {
            return Err(D64Error::Corrupt);
        }
        let mut files: Vec<String> = Vec::new();
        assert(files.deep_view() =~= listed_names(self.data@, 0));
        let mut k: usize = 0;
        while k < chain.len()
            invariant
                self.wf(),
                k <= chain@.len() <= 19,
                chain@ == directory_chain(self.data@),
                forall|i: int| 0 <= i < chain@.len() ==> #[trigger] chain@[i] < 19,
                files.deep_view() == listed_names(self.data@, 8 * k),
            decreases chain@.len() - k,
        {
            let mut slot: usize = 0;
            while slot < 8
                invariant
                    self.wf(),
                    slot <= 8,
                    k < chain@.len() <= 19,
                    chain@ == directory_chain(self.data@),
                    forall|i: int| 0 <= i < chain@.len() ==> #[trigger] chain@[i] < 19,
                    files.deep_view() == listed_names(self.data@, 8 * k + slot),
                decreases 8 - slot,
            {
                let entry = self.read_slot(chain[k], slot);
                assert(entry@ == slot_number(self.data@, 8 * k + slot));
                if entry[2] & 0x07 != 0 {
                    let name = decode_field(vstd::slice::slice_subrange(entry, 5, 21));
                    let ghost before = files.deep_view();
                    files.push(name);
                    assert(files.deep_view() =~= before.push(name@));
                }
                slot += 1;
            }
            k += 1;
        }
        Ok(files)
    }

    /// Track and sector of the first data sector of the file `filename`.
    ///
    /// The slots are looked at in the order of the chain. The first listed
    /// slot whose name, without the spaces around it, is `filename` decides.
    /// Without such a slot the result is `FileNotFound`, or `Corrupt` where
    /// the chain did not end cleanly.
    pub fn find_file(&self, filename: &str) -> (r: Result<(u8, u8), D64Error>)
        requires
            self.wf(),
        ensures
            r == found_file(self.data@, filename@),
    {
        let (chain, sound) = self.directory_sectors();
        let name = chars_of(filename);
        let mut k: usize = 0;
        while k < chain.len()
            invariant
                self.wf(),
                k <= chain@.len() <= 19,
                chain@ == directory_chain(self.data@),
                name@ == filename@,
                forall|i: int| 0 <= i < chain@.len() ==> #[trigger] chain@[i] < 19,
                first_match(self.data@, filename@, 0) == first_match(
                    self.data@,
                    filename@,
                    8 * k,
                ),
            decreases chain@.len() - k,
        {
            let mut slot: usize = 0;
            while slot < 8
                invariant
                    self.wf(),
                    slot <= 8,
                    k < chain@.len() <= 19,
                    chain@ == directory_chain(self.data@),
                    name@ == filename@,
                    forall|i: int| 0 <= i < chain@.len() ==> #[trigger] chain@[i] < 19,
                    first_match(self.data@, filename@, 0) == first_match(
                        self.data@,
                        filename@,
                        8 * k + slot,
                    ),
                decreases 8 - slot,
            {
                let entry = self.read_slot(chain[k], slot);
                assert(entry@ == slot_number(self.data@, 8 * k + slot));
                if entry[2] & 0x07 != 0 && name_matches(entry, &name) {
                    return Ok((entry[3], entry[4]));
                }
                slot += 1;
            }
            k += 1;
        }
        if sound {
            Err(D64Error::FileNotFound)
        } else {
            Err(D64Error::Corrupt)
        }
    }

    /// Builds the directory slot of a closed file: the file type, the start
    /// `(track, sector)` and the name, encoded and padded with the fill
    /// byte. A name of more than 16 characters does not fit the field and
    /// is refused with `InvalidTrackSector`.
    pub fn create_dir_entry(&self, filename: &str, track: u8, sector: u8) -> (r: Result<
        [u8; 32],
        D64Error,
    >)
        ensures
            filename@.len() <= 16 ==> (r matches Ok(entry) && entry@ == new_entry(
                filename@,
                track,
                sector,
            )),
            filename@.len() > 16 ==> (r matches Err(e) && e == D64Error::InvalidTrackSector),
    {
        let bytes = ascii_to_petscii(filename);
        if bytes.len() > 16 {
            return Err(D64Error::InvalidTrackSector);
        }
        let mut entry: [u8; 32] = [0;32];
        entry[2] = CLOSED_FILE;
        entry[3] = track;
        entry[4] = sector;
        let mut i: usize = 0;
        while i < 16
            invariant
                i <= 16,
                bytes@.len() <= 16,
                forall|j: int|
                    0 <= j < 32 ==> #[trigger] entry[j] == if j == 2 {
                        CLOSED_FILE
                    } else if j == 3 {
                        track
                    } else if j == 4 {
                        sector
                    } else if 5 <= j < 5 + i {
                        padded(bytes@, 16)[j - 5]
                    } else {
                        0u8
                    },
            decreases 16 - i,
        {
            entry[5 + i] = if i < bytes.len() {
                bytes[i]
            } else {
                FILL_BYTE
            };
            i += 1;
        }
        assert(entry@ =~= new_entry(filename@, track, sector));
        Ok(entry)
    }

    /// Number of the first empty slot of the directory, as the sector of the
    /// chain it lies in and its place in that sector.
    pub(crate) fn find_empty_slot(&self, chain: &Vec<u8>) -> (r: Option<(usize, usize)>)
        requires
            self.wf(),
            chain@ == directory_chain(self.data@),
            chain@.len() <= 19,
            forall|i: int| 0 <= i < chain@.len() ==> #[trigger] chain@[i] < 19,
        ensures
            match r {
                Some((k, slot)) => k < chain@.len() && slot < 8 && first_empty(self.data@, 0)
                    == Some(8 * k + slot),
                None => first_empty(self.data@, 0) is None,
            },
    {
        let mut k: usize = 0;
        while k < chain.len()
            invariant
                self.wf(),
                k <= chain@.len() <= 19,
                chain@ == directory_chain(self.data@),
                forall|i: int| 0 <= i < chain@.len() ==> #[trigger] chain@[i] < 19,
                first_empty(self.data@, 0) == first_empty(self.data@, 8 * k),
            decreases chain@.len() - k,
        {
            let mut slot: usize = 0;
            while slot < 8
                invariant
                    self.wf(),
                    slot <= 8,
                    k < chain@.len() <= 19,
                    chain@ == directory_chain(self.data@),
                    forall|i: int| 0 <= i < chain@.len() ==> #[trigger] chain@[i] < 19,
                    first_empty(self.data@, 0) == first_empty(self.data@, 8 * k + slot),
                decreases 8 - slot,
            {
                let entry = self.read_slot(chain[k], slot);
                assert(entry@ == slot_number(self.data@, 8 * k + slot));
                if entry[2] == 0 {
                    return Some((k, slot));
                }
                slot += 1;
            }
            k += 1;
        }
        None
    }

    /// Writes `entry` into the first empty slot of the directory, from byte 2
    /// of the slot on; the link of the sector is never touched.
    ///
    /// The directory is as long as its chain: where no slot of it is empty
    /// the result is `DiskFull`, or `Corrupt` where the chain did not end
    /// cleanly, and the image stays as it was. No sector is added to the
    /// chain.
    pub fn write_dir_entry(&mut self, entry: [u8; 32]) -> (r: Result<(), D64Error>)
        requires
            old(self).wf(),
        ensures
            final(self).wf(),
            final(self).tracks == old(self).tracks,
            r == append_outcome(old(self).data@),
            final(self).data@ == with_appended(old(self).data@, entry@),
    {
        let (chain, sound) = self.directory_sectors();
        let (k, slot) = match self.find_empty_slot(&chain) {
            Some(place) => place,
            None => {
                return if sound {
                    Err(D64Error::DiskFull)
                } else {
                    Err(D64Error::Corrupt)
                };
            },
        };
        let sector: u8 = chain[k];
        proof {
            lemma_image_sizes();
        }
        let offset: usize = directory_offset(sector) + 32 * slot;
        let mut i: usize = 2;
        while i < 32
            invariant
                2 <= i <= 32,
                offset + 32 <= self.data@.len() <= usize::MAX,
                self.data@.len() == old(self).data@.len(),
                self.tracks == old(self).tracks,
                forall|j: int|
                    0 <= j < self.data@.len() ==> #[trigger] self.data@[j] == if offset + 2 <= j
                        < offset + i {
                        entry@[j - offset]
                    } else {
                        old(self).data@[j]
                    },
            decreases 32 - i,
        {
            self.data[offset + i] = entry[i];
            i += 1;
        }
        assert(self.data@ =~= with_slot(old(self).data@, sector as int, slot as int, entry@));
        Ok(())
    }
}

/// A walk that has a sector of track 18 left to go to has not yet walked
/// nineteen: the limit on the length of a walk never cuts one short.
pub proof fn lemma_walk_has_room(path: Seq<u8>, next: u8)
    requires
        path.no_duplicates(),
        forall|i: int| 0 <= i < path.len() ==> #[trigger] path[i] < 19,
        next < 19,
        !path.contains(next),
    ensures
        path.len() < 19,
{
    let numbers = Seq::new(
        path.len() + 1,
        |i: int|
            if i < path.len() {
                path[i] as int
            } else {
                next as int
            },
    );
    assert forall|i: int, j: int| 0 <= i < numbers.len() && 0 <= j < numbers.len() && i
        != j implies numbers[i] != numbers[j] by {
        if i < path.len() && j < path.len() {
            assert(path[i] != path[j]);
        } else if i < path.len() {
            assert(path.contains(path[i]));
        } else {
            assert(path.contains(path[j]));
        }
    }
    lemma_distinct_numbers_are_few(numbers, 19);
}

/// The walk keeps what it has walked: the sectors it gives begin with
/// `path`, all lie on track 18, and none comes twice unless `path` held it
/// twice already.
pub proof fn lemma_walk_extends(image: Seq<u8>, path: Seq<u8>)
    requires
        1 <= path.len() <= 19,
        forall|i: int| 0 <= i < path.len() ==> #[trigger] path[i] < 19,
        path.no_duplicates(),
    ensures
        path.len() <= directory_walk(image, path).0.len() <= 19,
        forall|i: int| 0 <= i < path.len() ==> directory_walk(image, path).0[i] == path[i],
        forall|i: int|
            0 <= i < directory_walk(image, path).0.len() ==> #[trigger] directory_walk(
                image,
                path,
            ).0[i] < 19,
        directory_walk(image, path).0.no_duplicates(),
    decreases 19 - path.len(),
{
    let (next_track, next_sector) = link_of(image, 18, path.last() as int);
    if next_track == 0 || (next_track == 18 && next_sector == 1) {
    } else if next_track != 18 || next_sector >= 19 || path.contains(next_sector) || path.len()
        >= 19 {
    } else {
        let longer = path.push(next_sector);
        assert forall|i: int, j: int| 0 <= i < longer.len() && 0 <= j < longer.len() && i
            != j implies longer[i] != longer[j] by {
            if i < path.len() && j < path.len() {
                assert(path[i] != path[j]);
            } else if i < path.len() {
                assert(path.contains(path[i]));
            } else {
                assert(path.contains(path[j]));
            }
        }
        lemma_walk_extends(image, longer);
        assert forall|i: int| 0 <= i < path.len() implies directory_walk(image, path).0[i]
            == path[i] by {
            assert(longer[i] == path[i]);
        }
    }
}

/// The directory chain begins at sector 1, has between one and nineteen
/// sectors, all of track 18, and holds none of them twice.
pub proof fn lemma_directory_chain(image: Seq<u8>)
    ensures
        1 <= directory_chain(image).len() <= 19,
        directory_chain(image)[0] == 1,
        forall|i: int|
            0 <= i < directory_chain(image).len() ==> #[trigger] directory_chain(image)[i] < 19,
        directory_chain(image).no_duplicates(),
{
    assert(seq![1u8][0] == 1u8);
    lemma_walk_extends(image, seq![1u8]);
}

/// The walk reads nothing but the links of the sectors it walks: an image
/// with the same links in those sectors is walked alike.
pub proof fn lemma_walk_reads_links(image: Seq<u8>, other: Seq<u8>, path: Seq<u8>)
    requires
        1 <= path.len() <= 19,
        forall|i: int| 0 <= i < path.len() ==> #[trigger] path[i] < 19,
        path.no_duplicates(),
        forall|i: int|
            path.len() - 1 <= i < directory_walk(image, path).0.len() ==> link_of(
                other,
                18,
                #[trigger] directory_walk(image, path).0[i] as int,
            ) == link_of(image, 18, directory_walk(image, path).0[i] as int),
    ensures
        directory_walk(other, path) == directory_walk(image, path),
    decreases 19 - path.len(),
{
    lemma_walk_extends(image, path);
    let walk = directory_walk(image, path).0;
    assert(walk[path.len() - 1] == path.last());
    assert(link_of(other, 18, path.last() as int) == link_of(image, 18, path.last() as int));
    let (next_track, next_sector) = link_of(image, 18, path.last() as int);
    if next_track == 0 || (next_track == 18 && next_sector == 1) {
    } else if next_track != 18 || next_sector >= 19 || path.contains(next_sector) || path.len()
        >= 19 {
    } else {
        let longer = path.push(next_sector);
        assert forall|i: int, j: int| 0 <= i < longer.len() && 0 <= j < longer.len() && i
            != j implies longer[i] != longer[j] by {
            if i < path.len() && j < path.len() {
                assert(path[i] != path[j]);
            } else if i < path.len() {
                assert(path.contains(path[i]));
            } else {
                assert(path.contains(path[j]));
            }
        }
        lemma_walk_reads_links(image, other, longer);
    }
}

/// The directory is read from its own sectors alone: an image that holds
/// the same bytes in the sectors of the directory chain has the same chain
/// and the same slots.
pub proof fn lemma_directory_reads_its_sectors(image: Seq<u8>, other: Seq<u8>, tracks: u8)
    requires
        tracks == 35 || tracks == 40,
        image.len() == image_size(tracks as int),
        other.len() == image.len(),
        forall|i: int|
            0 <= i < directory_chain(image).len() ==> sector_at(
                other,
                18,
                #[trigger] directory_chain(image)[i] as int,
            ) == sector_at(image, 18, directory_chain(image)[i] as int),
    ensures
        directory_chain(other) == directory_chain(image),
        directory_is_sound(other) == directory_is_sound(image),
        slot_count(other) == slot_count(image),
        forall|n: int|
            0 <= n < slot_count(image) ==> #[trigger] slot_number(other, n) == slot_number(
                image,
                n,
            ),
{
    lemma_directory_chain(image);
    let chain = directory_chain(image);
    lemma_sectors_before(18);
    lemma_sectors_before(19);
    assert forall|i: int| 0 <= i < chain.len() implies link_of(
        other,
        18,
        #[trigger] chain[i] as int,
    ) == link_of(image, 18, chain[i] as int) by {
        let sector = chain[i] as int;
        lemma_offset_in_image(18, sector, tracks as int);
        assert(sector_at(other, 18, sector)[0] == other[offset_of(18, sector)]);
        assert(sector_at(image, 18, sector)[0] == image[offset_of(18, sector)]);
        assert(sector_at(other, 18, sector)[1] == other[offset_of(18, sector) + 1]);
        assert(sector_at(image, 18, sector)[1] == image[offset_of(18, sector) + 1]);
    }
    assert(seq![1u8][0] == 1u8);
    lemma_walk_reads_links(image, other, seq![1u8]);
    assert forall|n: int| 0 <= n < slot_count(image) implies #[trigger] slot_number(other, n)
        == slot_number(image, n) by {
        let sector = chain[n / 8] as int;
        lemma_offset_in_image(18, sector, tracks as int);
        assert(slot_at(other, sector, n % 8) =~= sector_at(other, 18, sector).subrange(
            32 * (n % 8),
            32 * (n % 8) + 32,
        ));
        assert(slot_at(image, sector, n % 8) =~= sector_at(image, 18, sector).subrange(
            32 * (n % 8),
            32 * (n % 8) + 32,
        ));
    }
}

/// What `first_match` finds is a slot of the directory that names the file,
/// with no such slot between `from` and it; where it finds nothing, no slot
/// from `from` on names the file.
pub proof fn lemma_first_match(image: Seq<u8>, name: Seq<char>, from: int)
    requires
        0 <= from,
    ensures
        match first_match(image, name, from) {
            Some(found) => from <= found < slot_count(image) && entry_matches(
                slot_number(image, found),
                name,
            ) && forall|n: int|
                from <= n < found ==> !entry_matches(#[trigger] slot_number(image, n), name),
            None => forall|n: int|
                from <= n < slot_count(image) ==> !entry_matches(
                    #[trigger] slot_number(image, n),
                    name,
                ),
        },
    decreases slot_count(image) - from,
{
    if from < slot_count(image) && !entry_matches(slot_number(image, from), name) {
        lemma_first_match(image, name, from + 1);
    }
}

/// A slot that names the file, with no such slot between `from` and it, is
/// what `first_match` finds.
pub proof fn lemma_first_match_is(image: Seq<u8>, name: Seq<char>, from: int, found: int)
    requires
        0 <= from <= found < slot_count(image),
        entry_matches(slot_number(image, found), name),
        forall|n: int| from <= n < found ==> !entry_matches(#[trigger] slot_number(image, n), name),
    ensures
        first_match(image, name, from) == Some(found),
    decreases found - from,
{
    if from < found {
        lemma_first_match_is(image, name, from + 1, found);
    }
}

/// What `first_empty` finds is an empty slot of the directory, with no
/// empty slot between `from` and it; where it finds nothing, no slot from
/// `from` on is empty.
pub proof fn lemma_first_empty(image: Seq<u8>, from: int)
    requires
        0 <= from,
    ensures
        match first_empty(image, from) {
            Some(found) => from <= found < slot_count(image) && entry_is_empty(
                slot_number(image, found),
            ) && forall|n: int|
                from <= n < found ==> !entry_is_empty(#[trigger] slot_number(image, n)),
            None => forall|n: int|
                from <= n < slot_count(image) ==> !entry_is_empty(
                    #[trigger] slot_number(image, n),
                ),
        },
    decreases slot_count(image) - from,
{
    if from < slot_count(image) && !entry_is_empty(slot_number(image, from)) {
        lemma_first_empty(image, from + 1);
    }
}

/// The list of names only grows with the slots looked at.
pub proof fn lemma_listed_names_grow(image: Seq<u8>, fewer: int, more: int)
    requires
        fewer <= more,
    ensures
        listed_names(image, fewer).len() <= listed_names(image, more).len(),
    decreases more - fewer,
{
    if fewer < more {
        lemma_listed_names_grow(image, fewer, more - 1);
    }
}

/// The names among the first slots are the same in two images as long as
/// those slots are.
pub proof fn lemma_listed_names_read_slots(image: Seq<u8>, other: Seq<u8>, upto: int)
    requires
        forall|n: int| 0 <= n < upto ==> #[trigger] slot_number(other, n) == slot_number(image, n),
    ensures
        listed_names(other, upto) == listed_names(image, upto),
    decreases upto,
{
    if upto > 0 {
        lemma_listed_names_read_slots(image, other, upto - 1);
    }
}

/// An image that differs from another in one slot, which names a file in
/// the one and no file in the other, lists the names of the other with that
/// one name put in at the place of the slot: behind the names of the slots
/// before it.
pub proof fn lemma_listed_names_with_one_more(
    image: Seq<u8>,
    other: Seq<u8>,
    place: int,
    upto: int,
)
    requires
        0 <= place < upto,
        forall|n: int|
            0 <= n < upto && n != place ==> #[trigger] slot_number(other, n) == slot_number(
                image,
                n,
            ),
        !entry_is_listed(slot_number(image, place)),
        entry_is_listed(slot_number(other, place)),
    ensures
        listed_names(other, upto) == listed_names(image, upto).insert(
            listed_names(image, place).len() as int,
            entry_name(slot_number(other, place)),
        ),
    decreases upto,
{
    let at = listed_names(image, place).len() as int;
    let added = entry_name(slot_number(other, place));
    if upto == place + 1 {
        lemma_listed_names_read_slots(image, other, place);
        assert(listed_names(image, place).push(added) =~= listed_names(image, upto).insert(
            at,
            added,
        ));
    } else {
        lemma_listed_names_with_one_more(image, other, place, upto - 1);
        lemma_listed_names_grow(image, place, upto - 1);
        let before = listed_names(image, upto - 1);
        if entry_is_listed(slot_number(image, upto - 1)) {
            let last = entry_name(slot_number(image, upto - 1));
            assert(before.insert(at, added).push(last) =~= before.push(last).insert(at, added));
        }
    }
}

/// A text that neither begins nor ends with a space has nothing to trim.
pub proof fn lemma_trimmed_text(text: Seq<char>)
    requires
        text.len() > 0 ==> text[0] != ' ' && text.last() != ' ',
    ensures
        trimmed(text) == text,
{
    assert(trimmed(text) =~= text);
}

/// A slot into which a new entry was written is listed, is not empty,
/// points at the given start and carries the name as stored.
pub proof fn lemma_written_slot(before: Seq<u8>, name: Seq<char>, track: u8, sector: u8)
    requires
        before.len() == 32,
        name.len() <= 16,
    ensures
        ({
            let slot = before.subrange(0, 2) + new_entry(name, track, sector).subrange(2, 32);
            &&& slot.len() == 32
            &&& entry_is_listed(slot)
            &&& !entry_is_empty(slot)
            &&& entry_start(slot) == (track, sector)
            &&& entry_name(slot) == stored_name(name)
        }),
{
    let slot = before.subrange(0, 2) + new_entry(name, track, sector).subrange(2, 32);
    assert(CLOSED_FILE & 0x07 != 0) by (bit_vector);
    assert(slot[2] == CLOSED_FILE);
    assert(slot[3] == track);
    assert(slot[4] == sector);
    assert(slot.subrange(5, 21) =~= padded(petscii_bytes(name), 16));
    lemma_encoded_text_has_no_fill(name);
    lemma_field_text_of_padded(petscii_bytes(name), 16);
}

/// Writing an entry changes the slot it goes to, from byte 2 on, and
/// nothing else: the chain of the directory, every other slot and every
/// other sector of the image stay as they were.
pub proof fn lemma_appended(image: Seq<u8>, tracks: u8, entry: Seq<u8>)
    requires
        tracks == 35 || tracks == 40,
        image.len() == image_size(tracks as int),
        entry.len() == 32,
        first_empty(image, 0) is Some,
    ensures
        ({
            let place = first_empty(image, 0)->0;
            let after = with_appended(image, entry);
            &&& after.len() == image.len()
            &&& 0 <= place < slot_count(image)
            &&& directory_chain(after) == directory_chain(image)
            &&& directory_is_sound(after) == directory_is_sound(image)
            &&& forall|n: int|
                0 <= n < slot_count(image) && n != place ==> #[trigger] slot_number(after, n)
                    == slot_number(image, n)
            &&& slot_number(after, place) == slot_number(image, place).subrange(0, 2)
                + entry.subrange(2, 32)
            &&& forall|t: int, s: int|
                valid_address(t, s, tracks as int) && !(t == 18 && s == directory_chain(
                    image,
                )[place / 8]) ==> #[trigger] sector_at(after, t, s) == sector_at(image, t, s)
        }),
{
    let place = first_empty(image, 0)->0;
    let after = with_appended(image, entry);
    let chain = directory_chain(image);
    lemma_first_empty(image, 0);
    lemma_directory_chain(image);
    lemma_sectors_before(18);
    lemma_sectors_before(19);
    let home = chain[place / 8] as int;
    lemma_offset_in_image(18, home, tracks as int);
    assert forall|t: int, s: int|
        valid_address(t, s, tracks as int) && !(t == 18 && s == home) implies #[trigger] sector_at(
        after,
        t,
        s,
    ) == sector_at(image, t, s) by {
        lemma_offset_in_image(t, s, tracks as int);
        lemma_sectors_disjoint(t, s, 18, home, tracks as int);
        assert(sector_at(after, t, s) =~= sector_at(image, t, s));
    }
    assert forall|i: int| 0 <= i < chain.len() implies link_of(
        after,
        18,
        #[trigger] chain[i] as int,
    ) == link_of(image, 18, chain[i] as int) by {
        let sector = chain[i] as int;
        lemma_offset_in_image(18, sector, tracks as int);
        if sector != home {
            lemma_sectors_disjoint(18, sector, 18, home, tracks as int);
        }
    }
    assert(seq![1u8][0] == 1u8);
    lemma_walk_reads_links(image, after, seq![1u8]);
    assert forall|n: int| 0 <= n < slot_count(image) && n != place implies #[trigger] slot_number(
        after,
        n,
    ) == slot_number(image, n) by {
        let sector = chain[n / 8] as int;
        lemma_offset_in_image(18, sector, tracks as int);
        if sector != home {
            lemma_sectors_disjoint(18, sector, 18, home, tracks as int);
        } else {
            if n / 8 != place / 8 {
                assert(chain[n / 8] != chain[place / 8]);
            }
        }
        assert(slot_at(after, sector, n % 8) =~= slot_at(image, sector, n % 8));
    }
    assert(slot_number(after, place) =~= slot_number(image, place).subrange(0, 2)
        + entry.subrange(2, 32));
}

/// A freshly formatted image has a directory of one sector that ends
/// cleanly, lists no file, and has its first slot empty.
pub proof fn lemma_formatted_directory(tracks: u8, name: Seq<char>, id: Seq<char>)
    requires
        tracks == 35 || tracks == 40,
    ensures
        directory_chain(formatted_image(tracks, name, id)) == seq![1u8],
        directory_is_sound(formatted_image(tracks, name, id)),
        file_names(formatted_image(tracks, name, id)) == Seq::<Seq<char>>::empty(),
        first_empty(formatted_image(tracks, name, id), 0) == Some(0int),
        slot_count(formatted_image(tracks, name, id)) == 8,
        forall|n: int|
            0 <= n < 8 ==> !entry_is_listed(
                #[trigger] slot_number(formatted_image(tracks, name, id), n),
            ) && entry_is_empty(slot_number(formatted_image(tracks, name, id), n)),
{
    let image = formatted_image(tracks, name, id);
    lemma_image_sizes();
    lemma_sectors_before(18);
    lemma_sectors_before(19);
    lemma_offset_in_image(18, 0, tracks as int);
    lemma_offset_in_image(18, 1, tracks as int);
    assert forall|i: int| offset_of(18, 1) <= i < offset_of(18, 1) + 256 implies image[i]
        == 0 by {}
    assert(link_of(image, 18, 1) == (0u8, 0u8));
    assert(seq![1u8].last() == 1u8);
    assert(directory_walk(image, seq![1u8]) == (seq![1u8], true));
    assert(0u8 & 0x07 == 0) by (bit_vector);
    assert forall|n: int| 0 <= n < 8 implies !entry_is_listed(#[trigger] slot_number(image, n))
        && entry_is_empty(slot_number(image, n)) by {
        assert(directory_chain(image)[n / 8] == 1u8);
        assert(slot_number(image, n)[2] == image[offset_of(18, 1) + 32 * (n % 8) + 2]);
    }
    assert(slot_count(image) == 8);
    assert(file_names(image) =~= Seq::<Seq<char>>::empty()) by {
        reveal_with_fuel(listed_names, 9);
    }
}

} // verus!

//! File data: chains of sectors that a directory slot points at, read back
//! as bytes or as a list of sectors, and written for a new file.

use crate::bam::BamView;
use crate::directory::{append_outcome, found_file, link_of, new_entry, with_appended};
use crate::error::D64Error;
use crate::geometry::{
    lemma_distinct_numbers_are_few, lemma_image_sizes, lemma_offset_in_image,
    lemma_offset_injective, lemma_sectors_before, offset_of, sector_index, valid_address,
};
use crate::image::{map_of, sector_at, with_map, with_sector, D64};
use std::collections::HashSet;
use vstd::prelude::*;

verus! {

broadcast use vstd::std_specs::hash::group_hash_axioms;

/// Payload bytes of a data sector that has a successor.
pub const PAYLOAD_SIZE: usize = 254;

/// Follows a chain of data sectors. `path` holds the sectors walked so far
/// and `next` is the sector that the last link named.
///
/// The walk ends well at a sector whose link has track 0. It fails with
/// `InvalidTrackSector` at a link that names no sector of the image, and
/// with `Corrupt` at a link to a sector already walked. An image has at most
/// 768 sectors, so no walk is longer; the limit is there for the recursion
/// to end and decides nothing (`lemma_proper_chain_is_short`).
pub open spec fn file_walk(image: Seq<u8>, tracks: u8, path: Seq<(u8, u8)>, next: (u8, u8))
    -> Result<Seq<(u8, u8)>, D64Error>
    decreases 768 - path.len(),
{
    if !valid_address(next.0 as int, next.1 as int, tracks as int) {
        Err(D64Error::InvalidTrackSector)
    } else if path.contains(next) || path.len() >= 768 {
        Err(D64Error::Corrupt)
    } else if link_of(image, next.0 as int, next.1 as int).0 == 0 {
        Ok(path.push(next))
    } else {
        file_walk(image, tracks, path.push(next), link_of(image, next.0 as int, next.1 as int))
    }
}

/// The sectors of the chain that starts at `start`, in order.
pub open spec fn file_chain(image: Seq<u8>, tracks: u8, start: (u8, u8)) -> Result<
    Seq<(u8, u8)>,
    D64Error,
> {
    file_walk(image, tracks, Seq::empty(), start)
}

/// What `trace_file` gives: the chain of the file that the directory finds
/// under `name`.
pub open spec fn traced(image: Seq<u8>, tracks: u8, name: Seq<char>) -> Result<
    Seq<(u8, u8)>,
    D64Error,
> {
    match found_file(image, name) {
        Ok(start) => file_chain(image, tracks, start),
        Err(e) => Err(e),
    }
}

/// How many payload bytes sector `k` of a chain holds: 254 where it has a
/// successor, and in the last sector what the second link byte says.
pub open spec fn payload_len(image: Seq<u8>, chain: Seq<(u8, u8)>, k: int) -> int {
    if k < chain.len() - 1 {
        254
    } else {
        link_of(image, chain[k].0 as int, chain[k].1 as int).1 as int
    }
}

/// The payload of sector `k` of a chain: the bytes that follow its link.
pub open spec fn payload(image: Seq<u8>, chain: Seq<(u8, u8)>, k: int) -> Seq<u8> {
    image.subrange(
        offset_of(chain[k].0 as int, chain[k].1 as int) + 2,
        offset_of(chain[k].0 as int, chain[k].1 as int) + 2 + payload_len(image, chain, k),
    )
}

/// The payloads of the first `upto` sectors of a chain, one after the other.
pub open spec fn chain_content(image: Seq<u8>, chain: Seq<(u8, u8)>, upto: int) -> Seq<u8>
    decreases upto,
{
    if upto <= 0 {
        Seq::empty()
    } else {
        chain_content(image, chain, upto - 1) + payload(image, chain, upto - 1)
    }
}

/// What `extract_file` gives: the payloads along the chain of the file that
/// the directory finds under `name`. A last sector that claims more than
/// 254 bytes of payload is `Corrupt`.
pub open spec fn extracted(image: Seq<u8>, tracks: u8, name: Seq<char>) -> Result<
    Seq<u8>,
    D64Error,
> {
    match traced(image, tracks, name) {
        Ok(chain) => if payload_len(image, chain, chain.len() - 1) > 254 {
            Err(D64Error::Corrupt)
        } else {
            Ok(chain_content(image, chain, chain.len() as int))
        },
        Err(e) => Err(e),
    }
}

/// How many sectors a file of `len` bytes takes: one for every 254 bytes
/// begun, and one for a file without bytes.
pub open spec fn sectors_needed(len: int) -> int {
    if len <= 0 {
        1
    } else {
        (len - 1) / 254 + 1
    }
}

/// Claims free sectors until `n` are taken: each is the first free sector
/// of the map, and is allocated in it before the next is looked for.
/// `taken` holds the sectors claimed so far. The result is the sectors in
/// the order of claiming and the map with all of them allocated.
///
/// Fails with `DiskFull` as soon as the map has no free sector left, and
/// with `Corrupt` where the map contradicts itself on a sector to claim.
pub open spec fn claim_walk(map: BamView, taken: Seq<(u8, u8)>, n: int) -> Result<
    (Seq<(u8, u8)>, BamView),
    D64Error,
>
    decreases n - taken.len(),
{
    if taken.len() >= n {
        Ok((taken, map))
    } else {
        match map.first_free() {
            None => Err(D64Error::DiskFull),
            Some(found) => match map.allocate_outcome(found.0, found.1) {
                Err(e) => Err(e),
                Ok(_) => claim_walk(map.allocated(found.0, found.1), taken.push(found), n),
            },
        }
    }
}

/// The `n` sectors that a new file gets from `map`, and the map after it.
pub open spec fn claimed(map: BamView, n: int) -> Result<(Seq<(u8, u8)>, BamView), D64Error> {
    claim_walk(map, Seq::empty(), n)
}

/// The 256 bytes of sector `k` of the chain of a new file with the bytes
/// `content`. A sector with a successor holds the successor's address and
/// the next 254 bytes; the last holds 0, the number of bytes left, those
/// bytes and zeros up to its end.
pub open spec fn data_block(chain: Seq<(u8, u8)>, content: Seq<u8>, k: int) -> Seq<u8> {
    Seq::new(
        256,
        |i: int|
            if i == 0 {
                if k < chain.len() - 1 {
                    chain[k + 1].0
                } else {
                    0u8
                }
            } else if i == 1 {
                if k < chain.len() - 1 {
                    chain[k + 1].1
                } else {
                    (content.len() - 254 * k) as u8
                }
            } else if 254 * k + i - 2 < content.len() {
                content[254 * k + i - 2]
            } else {
                0u8
            },
    )
}

/// `image` with the first `upto` sectors of the chain written, in order.
pub open spec fn with_chain(image: Seq<u8>, chain: Seq<(u8, u8)>, content: Seq<u8>, upto: int)
    -> Seq<u8>
    decreases upto,
{
    if upto <= 0 {
        image
    } else {
        with_sector(
            with_chain(image, chain, content, upto - 1),
            chain[upto - 1].0 as int,
            chain[upto - 1].1 as int,
            data_block(chain, content, upto - 1),
        )
    }
}

/// What `insert_file` reports. The checks come in this order: a first free
/// sector, a name that fits, an empty directory slot, free sectors for all
/// of the content.
pub open spec fn insert_outcome(image: Seq<u8>, tracks: u8, name: Seq<char>, content: Seq<u8>)
    -> Result<(), D64Error> {
    if map_of(image, tracks).first_free() is None {
        Err(D64Error::DiskFull)
    } else if name.len() > 16 {
        Err(D64Error::InvalidTrackSector)
    } else if append_outcome(image) is Err {
        append_outcome(image)
    } else {
        match claimed(map_of(image, tracks), sectors_needed(content.len() as int)) {
            Ok(_) => Ok(()),
            Err(e) => Err(e),
        }
    }
}

/// The image after a successful `insert_file`: the new slot is written
/// first, then the sectors of the chain in order, then the map with the
/// sectors of the chain allocated.
pub open spec fn inserted_image(image: Seq<u8>, tracks: u8, name: Seq<char>, content: Seq<u8>)
    -> Seq<u8> {
    let plan = claimed(map_of(image, tracks), sectors_needed(content.len() as int));
    let chain = plan->Ok_0.0;
    let entry = new_entry(name, chain[0].0, chain[0].1);
    with_map(
        with_chain(with_appended(image, entry), chain, content, chain.len() as int),
        plan->Ok_0.1,
    )
}

/// Whether `chain` names sectors of the image, and none of them twice.
pub open spec fn is_proper_chain(chain: Seq<(u8, u8)>, tracks: u8) -> bool {
    &&& forall|i: int|
        0 <= i < chain.len() ==> valid_address(
            (#[trigger] chain[i]).0 as int,
            chain[i].1 as int,
            tracks as int,
        )
    &&& forall|i: int, j: int|
        0 <= i < j < chain.len() ==> #[trigger] chain[i] != #[trigger] chain[j]
}

impl D64 {
    /// Walks the chain of data sectors that starts at `start` and gives its
    /// sectors in order.
    ///
    /// Fails with `InvalidTrackSector` where a link (or `start` itself)
    /// names no sector of the image, and with `Corrupt` where a link leads
    /// back into the chain. A set of the sectors visited, each by its byte
    /// offset, is kept to see that: a chain is never followed twice, so the
    /// sectors that are given are all different.
    pub fn file_sectors(&self, start: (u8, u8)) -> (r: Result<Vec<(u8, u8)>, D64Error>)
        requires
            self.wf(),
        ensures
            file_chain(self.data@, self.tracks, start) matches Ok(chain) ==> (r matches Ok(
                sectors,
            ) && sectors@ == chain),
            file_chain(self.data@, self.tracks, start) matches Err(e) ==> (r matches Err(e2) && e2
                == e),
            r matches Ok(sectors) ==> sectors@.len() >= 1 && sectors@[0] == start
                && is_proper_chain(sectors@, self.tracks),
    {
        let mut path: Vec<(u8, u8)> = Vec::new();
        let mut visited: HashSet<usize> = HashSet::new();
        let mut next: (u8, u8) = start;
        loop
            invariant
                self.wf(),
                path@.len() <= 768,
                path@.len() == 0 ==> next == start,
                path@.len() > 0 ==> path@[0] == start,
                is_proper_chain(path@, self.tracks),
                forall|t: u8, s: u8|
                    valid_address(t as int, s as int, self.tracks as int) ==> (visited@.contains(
                        offset_of(t as int, s as int) as usize,
                    ) <==> #[trigger] path@.contains((t, s))),
                file_chain(self.data@, self.tracks, start) == file_walk(
                    self.data@,
                    self.tracks,
                    path@,
                    next,
                ),
            decreases 768 - path@.len(),
        {
            let offset: usize = match self.sector_offset(next.0, next.1) {
                Ok(offset) => offset,
                Err(e) => {
                    return Err(e);
                },
            };
            proof {
                lemma_offset_in_image(next.0 as int, next.1 as int, self.tracks as int);
                lemma_image_sizes();
            }
            if visited.contains(&offset) {
                return Err(D64Error::Corrupt);
            }
            let ghost before = path@;
            proof {
                let longer = before.push(next);
                assert forall|i: int, j: int| 0 <= i < j < longer.len() implies longer[i]
                    != longer[j] by {
                    if j < before.len() {
                        assert(before[i] != before[j]);
                    } else {
                        assert(before.contains(before[i]));
                    }
                }
                lemma_proper_chain_is_short(longer, self.tracks);
            }
            visited.insert(offset);
            path.push(next);
            proof {
                assert forall|t: u8, s: u8|
                    valid_address(
                        t as int,
                        s as int,
                        self.tracks as int,
                    ) implies (visited@.contains(offset_of(t as int, s as int) as usize)
                    <==> #[trigger] path@.contains((t, s))) by {
                    lemma_offset_in_image(t as int, s as int, self.tracks as int);
                    if (t, s) == next {
                        assert(path@[path@.len() - 1] == (t, s));
                    } else {
                        if offset_of(t as int, s as int) == offset {
                            lemma_offset_injective(
                                t as int,
                                s as int,
                                next.0 as int,
                                next.1 as int,
                                self.tracks as int,
                            );
                        }
                        if before.contains((t, s)) {
                            let i = choose|i: int| 0 <= i < before.len() && before[i] == (t, s);
                            assert(path@[i] == (t, s));
                        }
                    }
                }
            }
            let next_track: u8 = self.data[offset];
            let next_sector: u8 = self.data[offset + 1];
            assert((next_track, next_sector) == link_of(
                self.data@,
                next.0 as int,
                next.1 as int,
            ));
            if next_track == 0 {
                return Ok(path);
            }
            next = (next_track, next_sector);
        }
    }

    /// The sectors that hold the file `filename`, in the order of its
    /// chain, beginning with the sector its directory slot points at.
    ///
    /// Fails as `find_file` does where the directory has no such file, and
    /// as `file_sectors` does where the chain is broken.
    pub fn trace_file(&self, filename: &str) -> (r: Result<Vec<(u8, u8)>, D64Error>)
        requires
            self.wf(),
        ensures
            traced(self.data@, self.tracks, filename@) matches Ok(chain) ==> (r matches Ok(
                sectors,
            ) && sectors@ == chain),
            traced(self.data@, self.tracks, filename@) matches Err(e) ==> (r matches Err(e2) && e2
                == e),
            r matches Ok(sectors) ==> sectors@.len() >= 1 && found_file(self.data@, filename@)
                == Ok::<(u8, u8), D64Error>(sectors@[0]) && is_proper_chain(
                sectors@,
                self.tracks,
            ),
    {
        match self.find_file(filename) {
            Ok(start) => self.file_sectors(start),
            Err(e) => Err(e),
        }
    }

    /// The bytes of the file `filename`: the payloads of the sectors of its
    /// chain, one after the other. Every sector but the last gives 254
    /// bytes, the last as many as its second link byte says.
    ///
    /// Fails as `trace_file` does, and with `Corrupt` where the last sector
    /// claims more than 254 bytes.
    pub fn extract_file(&self, filename: &str) -> (r: Result<Vec<u8>, D64Error>)
        requires
            self.wf(),
        ensures
            extracted(self.data@, self.tracks, filename@) matches Ok(content) ==> (r matches Ok(
                bytes,
            ) && bytes@ == content),
            extracted(self.data@, self.tracks, filename@) matches Err(e) ==> (r matches Err(e2)
                && e2 == e),
    {
        let chain = match self.trace_file(filename) {
            Ok(chain) => chain,
            Err(e) => {
                return Err(e);
            },
        };
        let mut content: Vec<u8> = Vec::new();
        let mut k: usize = 0;
        while k < chain.len()
            invariant
                self.wf(),
                k <= chain@.len(),
                chain@.len() >= 1,
                traced(self.data@, self.tracks, filename@) == Ok::<Seq<(u8, u8)>, D64Error>(
                    chain@,
                ),
                forall|i: int|
                    0 <= i < chain@.len() ==> valid_address(
                        (#[trigger] chain@[i]).0 as int,
                        chain@[i].1 as int,
                        self.tracks as int,
                    ),
                content@ == chain_content(self.data@, chain@, k as int),
                k == chain@.len() ==> payload_len(self.data@, chain@, chain@.len() - 1) <= 254,
            decreases chain@.len() - k,
        {
            let address: (u8, u8) = chain[k];
            proof {
                lemma_offset_in_image(address.0 as int, address.1 as int, self.tracks as int);
            }
            let block = match self.read_sector(address.0, address.1) {
                Ok(block) => block,
                Err(e) => {
                    return Err(e);
                },
            };
            let count: usize = if k + 1 < chain.len() {
                PAYLOAD_SIZE
            } else {
                block[1] as usize
            };
            assert(count == payload_len(self.data@, chain@, k as int));
            if count > PAYLOAD_SIZE {
                return Err(D64Error::Corrupt);
            }
            let mut i: usize = 0;
            while i < count
                invariant
                    i <= count <= 254,
                    block@.len() == 256,
                    block@ == sector_at(self.data@, address.0 as int, address.1 as int),
                    content@ == chain_content(self.data@, chain@, k as int) + block@.subrange(
                        2,
                        2 + i,
                    ),
                decreases count - i,
            {
                content.push(block[2 + i]);
                i += 1;
                assert(content@ =~= chain_content(self.data@, chain@, k as int) + block@.subrange(
                    2,
                    2 + i,
                ));
            }
            assert(block@.subrange(2, 2 + count) =~= payload(self.data@, chain@, k as int));
            k += 1;
        }
        Ok(content)
    }

    /// Stores a new file: a directory slot with its name, and its bytes in
    /// a chain of sectors.
    ///
    /// Every sector of the chain is the first free sector of the
    /// availability map at the time it is claimed, and is allocated in the
    /// map when claimed; so the chain never takes a sector that the map
    /// gives to another file. A file without bytes takes one sector. The
    /// map is written back with the chain allocated.
    ///
    /// Nothing is written unless everything fits: on `DiskFull` (no free
    /// sector for some part of the content, or no empty directory slot),
    /// `InvalidTrackSector` (a name of more than 16 characters) and
    /// `Corrupt` (a broken directory chain or a map that contradicts itself)
    /// the image stays as it was.
    pub fn insert_file(&mut self, filename: &str, content: &[u8]) -> (r: Result<(), D64Error>)
        requires
            old(self).wf(),
        ensures
            final(self).wf(),
            final(self).tracks == old(self).tracks,
            r == insert_outcome(old(self).data@, old(self).tracks, filename@, content@),
            r is Ok ==> final(self).data@ == inserted_image(
                old(self).data@,
                old(self).tracks,
                filename@,
                content@,
            ),
            r is Err ==> final(self).data@ == old(self).data@,
    {
        let mut bam = match self.read_bam() {
            Ok(bam) => bam,
            Err(e) => {
                return Err(e);
            },
        };
        let ghost map = bam@;
        let first: (u8, u8) = match bam.find_first_free() {
            Some(first) => first,
            None => {
                return Err(D64Error::DiskFull);
            },
        };
        let entry: [u8; 32] = match self.create_dir_entry(filename, first.0, first.1) {
            Ok(entry) => entry,
            Err(e) => {
                return Err(e);
            },
        };
        let (directory, sound) = self.directory_sectors();
        if self.find_empty_slot(&directory).is_none() {
            return if sound {
                Err(D64Error::DiskFull)
            } else {
                Err(D64Error::Corrupt)
            };
        }
        let needed: usize = if content.len() == 0 {
            1
        } else {
            (content.len() - 1) / PAYLOAD_SIZE + 1
        };
        let mut chain: Vec<(u8, u8)> = Vec::new();
        while chain.len() < needed
            invariant
                self.wf(),
                self.tracks == old(self).tracks,
                self.data@ == old(self).data@,
                map == map_of(old(self).data@, old(self).tracks),
                filename@.len() <= 16,
                append_outcome(old(self).data@) is Ok,
                needed == sectors_needed(content@.len() as int),
                chain@.len() <= needed,
                bam.tracks == self.tracks,
                chain@.len() == 0 ==> bam@ == map,
                chain@.len() > 0 ==> chain@[0] == first,
                map.first_free() == Some(first),
                forall|i: int|
                    0 <= i < chain@.len() ==> valid_address(
                        (#[trigger] chain@[i]).0 as int,
                        chain@[i].1 as int,
                        self.tracks as int,
                    ),
                claimed(map, needed as int) == claim_walk(bam@, chain@, needed as int),
            decreases needed - chain@.len(),
        {
            let found: (u8, u8) = match bam.find_first_free() {
                Some(found) => found,
                None => {
                    return Err(D64Error::DiskFull);
                },
            };
            match bam.allocate_sector(found.0, found.1) {
                Ok(()) => {},
                Err(e) => {
                    return Err(e);
                },
            }
            chain.push(found);
        }
        let ghost slotted = with_appended(self.data@, entry@);
        match self.write_dir_entry(entry) {
            Ok(()) => {},
            Err(e) => {
                return Err(e);
            },
        }
        let mut k: usize = 0;
        while k < chain.len()
            invariant
                self.wf(),
                self.tracks == old(self).tracks,
                k <= chain@.len(),
                chain@.len() == needed,
                needed == sectors_needed(content@.len() as int),
                254 * (needed - 1) <= content@.len() <= usize::MAX,
                forall|i: int|
                    0 <= i < chain@.len() ==> valid_address(
                        (#[trigger] chain@[i]).0 as int,
                        chain@[i].1 as int,
                        self.tracks as int,
                    ),
                self.data@ == with_chain(slotted, chain@, content@, k as int),
            decreases chain@.len() - k,
        {
            let begin: usize = k * PAYLOAD_SIZE;
            let mut block: Vec<u8> = vec![0u8; 256];
            let count: usize = if k + 1 < chain.len() {
                block[0] = chain[k + 1].0;
                block[1] = chain[k + 1].1;
                PAYLOAD_SIZE
            } else {
                block[1] = (content.len() - begin) as u8;
                content.len() - begin
            };
            let mut i: usize = 0;
            while i < count
                invariant
                    i <= count <= 254,
                    begin == 254 * k,
                    begin + count <= content@.len() <= usize::MAX,
                    k + 1 >= chain@.len() ==> begin + count == content@.len(),
                    k < chain@.len(),
                    block@.len() == 256,
                    forall|j: int|
                        0 <= j < 256 ==> #[trigger] block@[j] == if j < 2 + i {
                            data_block(chain@, content@, k as int)[j]
                        } else {
                            0u8
                        },
                decreases count - i,
            {
                block[2 + i] = content[begin + i];
                i += 1;
            }
            assert(block@ =~= data_block(chain@, content@, k as int));
            let address: (u8, u8) = chain[k];
            match self.write_sector(address.0, address.1, block.as_slice()) {
                Ok(()) => {},
                Err(e) => {
                    return Err(e);
                },
            }
            k += 1;
        }
        self.write_bam(&bam)
    }
}

/// A chain without repetition is no longer than the image has sectors.
pub proof fn lemma_proper_chain_is_short(chain: Seq<(u8, u8)>, tracks: u8)
    requires
        tracks <= 40,
        is_proper_chain(chain, tracks),
    ensures
        chain.len() <= 768,
{
    let indices = Seq::new(
        chain.len(),
        |i: int| sector_index(chain[i].0 as int, chain[i].1 as int),
    );
    lemma_sectors_before(tracks as int + 1);
    assert forall|i: int| 0 <= i < indices.len() implies 0 <= #[trigger] indices[i] < 768 by {
        lemma_offset_in_image(chain[i].0 as int, chain[i].1 as int, tracks as int);
    }
    assert forall|i: int, j: int| 0 <= i < indices.len() && 0 <= j < indices.len() && i
        != j implies indices[i] != indices[j] by {
        if indices[i] == indices[j] {
            lemma_offset_injective(
                chain[i].0 as int,
                chain[i].1 as int,
                chain[j].0 as int,
                chain[j].1 as int,
                tracks as int,
            );
            if i < j {
                assert(chain[i] != chain[j]);
            } else {
                assert(chain[j] != chain[i]);
            }
        }
    }
    lemma_distinct_numbers_are_few(indices, 768);
}

} // verus!

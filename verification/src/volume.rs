//! What holds of a volume as files are put on it: what was inserted comes
//! back, what was there stays, and the sectors of the map and of the
//! directory are never given to a file.

use crate::bam::{
    decoded, encoded, lemma_allocated_counts_agree, lemma_allocated_touches_one_sector,
    lemma_decode_encoded_track, lemma_decoded_is_wf, lemma_encoded_has_256_bytes,
    lemma_first_free, lemma_free_total, BamView,
};
use crate::directory::{
    directory_chain, directory_is_sound, entry_is_empty, entry_is_listed, entry_matches,
    entry_name, entry_start, file_names, first_empty, first_match, found_file, lemma_appended,
    lemma_directory_chain, lemma_directory_reads_its_sectors, lemma_first_empty,
    lemma_first_match, lemma_first_match_is, lemma_formatted_directory,
    lemma_listed_names_with_one_more, lemma_trimmed_text, lemma_written_slot, link_of,
    listed_names, new_entry, slot_count, slot_number, trimmed, with_appended,
};
use crate::error::D64Error;
use crate::files::{
    chain_content, claim_walk, claimed, data_block, extracted, file_walk, insert_outcome,
    inserted_image, is_proper_chain, lemma_proper_chain_is_short, payload, payload_len,
    sectors_needed, traced, with_chain,
};
use crate::geometry::{
    image_size, lemma_image_sizes, lemma_offset_in_image, lemma_sectors_before, offset_of,
    valid_address,
};
use crate::image::{
    formatted_image, fresh_map, label_fits, lemma_fresh_disk_has_664_free_sectors,
    lemma_fresh_map_counts_agree, lemma_map_of_formatted_image, lemma_with_sector, map_of,
    sector_at, with_sector,
};
use crate::petscii::{
    field_text, in_shared_band, lemma_encoded_text_has_no_fill, lemma_field_text_of_padded,
    lemma_round_trip, padded, petscii_bytes, stored_name,
};
use vstd::prelude::*;

verus! {

/// Whether the volume keeps its own sectors out of the hands of files: the
/// directory chain does not run through the sector of the map, and the map
/// marks neither its own sector nor any sector of the directory chain free.
/// A freshly formatted image is so, and `insert_file` keeps an image so.
pub open spec fn system_sectors_are_kept(image: Seq<u8>, tracks: u8) -> bool {
    &&& !directory_chain(image).contains(0u8)
    &&& !map_of(image, tracks).is_free(18, 0)
    &&& forall|i: int|
        0 <= i < directory_chain(image).len() ==> !map_of(image, tracks).is_free(
            18,
            #[trigger] directory_chain(image)[i],
        )
}

/// Whether a chain lies apart from what `insert_file` writes: the map
/// marks none of its sectors free, and none of them is the sector of the
/// map or a sector of the directory chain.
pub open spec fn is_kept_apart(image: Seq<u8>, tracks: u8, chain: Seq<(u8, u8)>) -> bool {
    forall|i: int|
        0 <= i < chain.len() ==> !map_of(image, tracks).is_free(
            (#[trigger] chain[i]).0,
            chain[i].1,
        ) && !(chain[i].0 == 18 && (chain[i].1 == 0 || directory_chain(image).contains(
            chain[i].1,
        )))
}

/// The name under which a file that was inserted as `name` is found again:
/// the name as the directory stores it, without the spaces around it.
pub open spec fn lookup_name(name: Seq<char>) -> Seq<char> {
    trimmed(stored_name(name))
}

/// A name of characters from the shared band that neither begins nor ends
/// with a space is looked up as it is written: storing it changes nothing
/// and there is nothing to trim.
pub proof fn lemma_lookup_name_of_plain_name(name: Seq<char>)
    requires
        forall|i: int| 0 <= i < name.len() ==> in_shared_band(#[trigger] name[i]),
        name.len() > 0 ==> name[0] != ' ' && name.last() != ' ',
    ensures
        stored_name(name) == name,
        lookup_name(name) == name,
{
    lemma_round_trip(name);
    lemma_trimmed_text(name);
}

/// What holds of the sectors that `claim_walk` adds to `taken`: each names
/// a sector of the map that was free before and is allocated after, no two
/// of them are the same, and no sector is free after that was not before.
pub proof fn lemma_claim_walk(map: BamView, taken: Seq<(u8, u8)>, n: int)
    requires
        map.wf(),
        claim_walk(map, taken, n) is Ok,
    ensures
        ({
            let chain = claim_walk(map, taken, n)->Ok_0.0;
            let after = claim_walk(map, taken, n)->Ok_0.1;
            &&& after.wf()
            &&& after.tracks == map.tracks
            &&& after.disk_name == map.disk_name
            &&& after.disk_id == map.disk_id
            &&& taken.len() <= chain.len()
            &&& taken.len() <= n ==> chain.len() == n
            &&& taken.len() < n ==> map.first_free() == Some(chain[taken.len() as int])
            &&& forall|i: int| 0 <= i < taken.len() ==> chain[i] == taken[i]
            &&& forall|i: int|
                taken.len() <= i < chain.len() ==> valid_address(
                    (#[trigger] chain[i]).0 as int,
                    chain[i].1 as int,
                    map.tracks as int,
                ) && map.is_free(chain[i].0, chain[i].1) && !after.is_free(chain[i].0, chain[i].1)
            &&& forall|i: int, j: int|
                taken.len() <= i < j < chain.len() ==> #[trigger] chain[i] != #[trigger] chain[j]
            &&& forall|t: u8, s: u8|
                valid_address(t as int, s as int, map.tracks as int) && #[trigger] after.is_free(
                    t,
                    s,
                ) ==> map.is_free(t, s)
        }),
    decreases n - taken.len(),
{
    if taken.len() < n {
        let found = map.first_free()->0;
        let next = map.allocated(found.0, found.1);
        lemma_first_free(map);
        lemma_allocated_touches_one_sector(map, found.0, found.1, found.0, found.1);
        lemma_claim_walk(next, taken.push(found), n);
        let chain = claim_walk(map, taken, n)->Ok_0.0;
        let after = claim_walk(map, taken, n)->Ok_0.1;
        assert(chain[taken.len() as int] == taken.push(found)[taken.len() as int]);
        assert forall|i: int| 0 <= i < taken.len() implies chain[i] == taken[i] by {
            assert(chain[i] == taken.push(found)[i]);
        }
        assert forall|t: u8, s: u8|
            valid_address(t as int, s as int, map.tracks as int) && #[trigger] after.is_free(
                t,
                s,
            ) implies map.is_free(t, s) by {
            lemma_allocated_touches_one_sector(map, found.0, found.1, t, s);
        }
        assert forall|i: int| taken.len() <= i < chain.len() implies valid_address(
            (#[trigger] chain[i]).0 as int,
            chain[i].1 as int,
            map.tracks as int,
        ) && map.is_free(chain[i].0, chain[i].1) && !after.is_free(chain[i].0, chain[i].1) by {
            if i > taken.len() {
                lemma_allocated_touches_one_sector(map, found.0, found.1, chain[i].0, chain[i].1);
            } else {
                if after.is_free(found.0, found.1) {
                    assert(next.is_free(found.0, found.1));
                }
            }
        }
        assert forall|i: int, j: int| taken.len() <= i < j < chain.len() implies #[trigger] chain[i]
            != #[trigger] chain[j] by {
            if i == taken.len() {
                assert(next.is_free(chain[j].0, chain[j].1));
            }
        }
    }
}

/// Claiming frees nothing and takes nothing else: a sector that was free
/// and is not among the sectors that `claim_walk` adds is free afterwards.
pub proof fn lemma_claim_walk_leaves_the_rest(
    map: BamView,
    taken: Seq<(u8, u8)>,
    n: int,
    track: u8,
    sector: u8,
)
    requires
        map.wf(),
        claim_walk(map, taken, n) is Ok,
        valid_address(track as int, sector as int, map.tracks as int),
        map.is_free(track, sector),
        forall|i: int|
            taken.len() <= i < claim_walk(map, taken, n)->Ok_0.0.len() ==> #[trigger] claim_walk(
                map,
                taken,
                n,
            )->Ok_0.0[i] != (track, sector),
    ensures
        claim_walk(map, taken, n)->Ok_0.1.is_free(track, sector),
    decreases n - taken.len(),
{
    if taken.len() < n {
        let found = map.first_free()->0;
        let next = map.allocated(found.0, found.1);
        lemma_claim_walk(map, taken, n);
        lemma_allocated_touches_one_sector(map, found.0, found.1, track, sector);
        let chain = claim_walk(map, taken, n)->Ok_0.0;
        assert(chain[taken.len() as int] != (track, sector));
        lemma_claim_walk_leaves_the_rest(next, taken.push(found), n, track, sector);
    }
}

/// When there is room. On a map whose counters agree with its bitmap,
/// claiming `n` sectors succeeds exactly when the map has `n` free sectors,
/// and fails with `DiskFull` when it has fewer.
pub proof fn lemma_claims_succeed_while_sectors_are_free(
    map: BamView,
    taken: Seq<(u8, u8)>,
    n: int,
)
    requires
        map.wf(),
        map.counts_agree(),
    ensures
        claim_walk(map, taken, n) is Ok <==> n - taken.len() <= map.free_total(),
        claim_walk(map, taken, n) is Err ==> claim_walk(map, taken, n) == Err::<
            (Seq<(u8, u8)>, BamView),
            D64Error,
        >(D64Error::DiskFull),
    decreases n - taken.len(),
{
    lemma_free_total(map, 0, 0);
    if taken.len() < n {
        match map.first_free() {
            Some(found) => {
                lemma_first_free(map);
                lemma_allocated_counts_agree(map, found.0, found.1);
                lemma_free_total(map, found.0, found.1);
                lemma_allocated_touches_one_sector(map, found.0, found.1, found.0, found.1);
                assert(map.free_count(found.0) > 0);
                lemma_claims_succeed_while_sectors_are_free(
                    map.allocated(found.0, found.1),
                    taken.push(found),
                    n,
                );
            },
            None => {},
        }
    }
}

/// A walk that ends well gives the sectors it had walked, then the sector
/// it went on from, then what followed; and all of them name sectors of the
/// image, provided the ones it had walked do.
pub proof fn lemma_file_walk(image: Seq<u8>, tracks: u8, path: Seq<(u8, u8)>, next: (u8, u8))
    requires
        file_walk(image, tracks, path, next) is Ok,
        forall|i: int|
            0 <= i < path.len() ==> valid_address(
                (#[trigger] path[i]).0 as int,
                path[i].1 as int,
                tracks as int,
            ),
    ensures
        ({
            let chain = file_walk(image, tracks, path, next)->Ok_0;
            &&& chain.len() > path.len()
            &&& chain[path.len() as int] == next
            &&& forall|i: int| 0 <= i < path.len() ==> chain[i] == path[i]
            &&& forall|i: int|
                0 <= i < chain.len() ==> valid_address(
                    (#[trigger] chain[i]).0 as int,
                    chain[i].1 as int,
                    tracks as int,
                )
        }),
    decreases 768 - path.len(),
{
    let longer = path.push(next);
    if link_of(image, next.0 as int, next.1 as int).0 != 0 {
        lemma_file_walk(image, tracks, longer, link_of(image, next.0 as int, next.1 as int));
        let chain = file_walk(image, tracks, path, next)->Ok_0;
        assert(chain[path.len() as int] == longer[path.len() as int]);
        assert forall|i: int| 0 <= i < path.len() implies chain[i] == path[i] by {
            assert(chain[i] == longer[i]);
        }
    }
}

/// A walk reads nothing but the links of the sectors it walks: in an image
/// with the same bytes in those sectors it goes the same way.
pub proof fn lemma_file_walk_reads_its_sectors(
    image: Seq<u8>,
    other: Seq<u8>,
    tracks: u8,
    path: Seq<(u8, u8)>,
    next: (u8, u8),
)
    requires
        tracks == 35 || tracks == 40,
        image.len() == image_size(tracks as int),
        other.len() == image.len(),
        file_walk(image, tracks, path, next) is Ok,
        forall|i: int|
            0 <= i < path.len() ==> valid_address(
                (#[trigger] path[i]).0 as int,
                path[i].1 as int,
                tracks as int,
            ),
        forall|i: int|
            path.len() <= i < file_walk(image, tracks, path, next)->Ok_0.len() ==> sector_at(
                other,
                (#[trigger] file_walk(image, tracks, path, next)->Ok_0[i]).0 as int,
                file_walk(image, tracks, path, next)->Ok_0[i].1 as int,
            ) == sector_at(
                image,
                file_walk(image, tracks, path, next)->Ok_0[i].0 as int,
                file_walk(image, tracks, path, next)->Ok_0[i].1 as int,
            ),
    ensures
        file_walk(other, tracks, path, next) == file_walk(image, tracks, path, next),
    decreases 768 - path.len(),
{
    let chain = file_walk(image, tracks, path, next)->Ok_0;
    lemma_file_walk(image, tracks, path, next);
    lemma_offset_in_image(next.0 as int, next.1 as int, tracks as int);
    assert(chain[path.len() as int] == next);
    let mine = sector_at(image, next.0 as int, next.1 as int);
    let theirs = sector_at(other, next.0 as int, next.1 as int);
    assert(mine[0] == image[offset_of(next.0 as int, next.1 as int)]);
    assert(mine[1] == image[offset_of(next.0 as int, next.1 as int) + 1]);
    assert(theirs[0] == other[offset_of(next.0 as int, next.1 as int)]);
    assert(theirs[1] == other[offset_of(next.0 as int, next.1 as int) + 1]);
    if link_of(image, next.0 as int, next.1 as int).0 != 0 {
        lemma_file_walk_reads_its_sectors(
            image,
            other,
            tracks,
            path.push(next),
            link_of(image, next.0 as int, next.1 as int),
        );
    }
}

/// The bytes of a file are read from the sectors of its chain alone: an
/// image with the same bytes in those sectors gives the same payloads.
pub proof fn lemma_chain_content_reads_its_sectors(
    image: Seq<u8>,
    other: Seq<u8>,
    tracks: u8,
    chain: Seq<(u8, u8)>,
    upto: int,
)
    requires
        tracks == 35 || tracks == 40,
        image.len() == image_size(tracks as int),
        other.len() == image.len(),
        0 <= upto <= chain.len(),
        chain.len() >= 1,
        payload_len(image, chain, chain.len() - 1) <= 254,
        forall|i: int|
            0 <= i < chain.len() ==> valid_address(
                (#[trigger] chain[i]).0 as int,
                chain[i].1 as int,
                tracks as int,
            ) && sector_at(other, chain[i].0 as int, chain[i].1 as int) == sector_at(
                image,
                chain[i].0 as int,
                chain[i].1 as int,
            ),
    ensures
        payload_len(other, chain, chain.len() - 1) == payload_len(image, chain, chain.len() - 1),
        chain_content(other, chain, upto) == chain_content(image, chain, upto),
    decreases upto,
{
    let last = chain[chain.len() - 1];
    lemma_offset_in_image(last.0 as int, last.1 as int, tracks as int);
    assert(sector_at(image, last.0 as int, last.1 as int)[1] == image[offset_of(
        last.0 as int,
        last.1 as int,
    ) + 1]);
    assert(sector_at(other, last.0 as int, last.1 as int)[1] == other[offset_of(
        last.0 as int,
        last.1 as int,
    ) + 1]);
    if upto > 0 {
        lemma_chain_content_reads_its_sectors(image, other, tracks, chain, upto - 1);
        let address = chain[upto - 1];
        lemma_offset_in_image(address.0 as int, address.1 as int, tracks as int);
        let count = payload_len(image, chain, upto - 1);
        assert(payload(image, chain, upto - 1) =~= sector_at(
            image,
            address.0 as int,
            address.1 as int,
        ).subrange(2, 2 + count));
        assert(payload(other, chain, upto - 1) =~= sector_at(
            other,
            address.0 as int,
            address.1 as int,
        ).subrange(2, 2 + count));
    }
}

/// After the first `upto` sectors of a chain are written, each of them
/// holds its block of the file, and every other sector is as it was.
pub proof fn lemma_with_chain(
    image: Seq<u8>,
    tracks: u8,
    chain: Seq<(u8, u8)>,
    content: Seq<u8>,
    upto: int,
)
    requires
        tracks == 35 || tracks == 40,
        image.len() == image_size(tracks as int),
        is_proper_chain(chain, tracks),
        0 <= upto <= chain.len(),
    ensures
        with_chain(image, chain, content, upto).len() == image.len(),
        forall|j: int|
            0 <= j < upto ==> sector_at(
                with_chain(image, chain, content, upto),
                (#[trigger] chain[j]).0 as int,
                chain[j].1 as int,
            ) == data_block(chain, content, j),
        forall|t: u8, s: u8|
            valid_address(t as int, s as int, tracks as int) && !chain.take(upto).contains((t, s))
                ==> #[trigger] sector_at(
                with_chain(image, chain, content, upto),
                t as int,
                s as int,
            ) == sector_at(image, t as int, s as int),
    decreases upto,
{
    if upto > 0 {
        lemma_with_chain(image, tracks, chain, content, upto - 1);
        let before = with_chain(image, chain, content, upto - 1);
        let after = with_chain(image, chain, content, upto);
        let last = chain[upto - 1];
        let block = data_block(chain, content, upto - 1);
        lemma_with_sector(
            before,
            tracks as int,
            last.0 as int,
            last.1 as int,
            block,
            last.0 as int,
            last.1 as int,
        );
        assert forall|j: int| 0 <= j < upto implies sector_at(
            after,
            (#[trigger] chain[j]).0 as int,
            chain[j].1 as int,
        ) == data_block(chain, content, j) by {
            lemma_with_sector(
                before,
                tracks as int,
                last.0 as int,
                last.1 as int,
                block,
                chain[j].0 as int,
                chain[j].1 as int,
            );
            if j < upto - 1 {
                assert(chain[j] != chain[upto - 1]);
            }
        }
        assert forall|t: u8, s: u8|
            valid_address(t as int, s as int, tracks as int) && !chain.take(upto).contains(
                (t, s),
            ) implies #[trigger] sector_at(after, t as int, s as int) == sector_at(
            image,
            t as int,
            s as int,
        ) by {
            lemma_with_sector(
                before,
                tracks as int,
                last.0 as int,
                last.1 as int,
                block,
                t as int,
                s as int,
            );
            assert(chain.take(upto)[upto - 1] == last);
            let shorter = chain.take(upto - 1);
            if shorter.contains((t, s)) {
                let i = choose|i: int| 0 <= i < shorter.len() && shorter[i] == (t, s);
                assert(chain.take(upto)[i] == (t, s));
            }
        }
    }
}

/// In an image that holds the blocks of a file in the sectors of a chain,
/// the walk from any sector of the chain, with the sectors before it
/// walked, gives the whole chain.
pub proof fn lemma_walk_of_written_chain(
    image: Seq<u8>,
    tracks: u8,
    chain: Seq<(u8, u8)>,
    content: Seq<u8>,
    from: int,
)
    requires
        tracks == 35 || tracks == 40,
        image.len() == image_size(tracks as int),
        is_proper_chain(chain, tracks),
        0 <= from < chain.len(),
        forall|j: int|
            0 <= j < chain.len() ==> sector_at(
                image,
                (#[trigger] chain[j]).0 as int,
                chain[j].1 as int,
            ) == data_block(chain, content, j),
    ensures
        file_walk(image, tracks, chain.take(from), chain[from]) == Ok::<Seq<(u8, u8)>, D64Error>(
            chain,
        ),
    decreases chain.len() - from,
{
    let path = chain.take(from);
    let next = chain[from];
    lemma_proper_chain_is_short(chain, tracks);
    lemma_offset_in_image(next.0 as int, next.1 as int, tracks as int);
    if path.contains(next) {
        let i = choose|i: int| 0 <= i < path.len() && path[i] == next;
        assert(chain[i] != chain[from]);
    }
    let block = sector_at(image, next.0 as int, next.1 as int);
    assert(block[0] == image[offset_of(next.0 as int, next.1 as int)]);
    assert(block[1] == image[offset_of(next.0 as int, next.1 as int) + 1]);
    assert(chain.take(from + 1) =~= path.push(next));
    if from < chain.len() - 1 {
        assert(link_of(image, next.0 as int, next.1 as int) == chain[from + 1]);
        lemma_walk_of_written_chain(image, tracks, chain, content, from + 1);
    } else {
        assert(chain.take(from + 1) =~= chain);
    }
}

/// In an image that holds the blocks of a file in the sectors of a chain,
/// the payloads of the first `upto` sectors are the first bytes of the
/// file, and the payloads of all sectors are the file.
pub proof fn lemma_content_of_written_chain(
    image: Seq<u8>,
    tracks: u8,
    chain: Seq<(u8, u8)>,
    content: Seq<u8>,
    upto: int,
)
    requires
        tracks == 35 || tracks == 40,
        image.len() == image_size(tracks as int),
        is_proper_chain(chain, tracks),
        chain.len() == sectors_needed(content.len() as int),
        0 <= upto <= chain.len(),
        forall|j: int|
            0 <= j < chain.len() ==> sector_at(
                image,
                (#[trigger] chain[j]).0 as int,
                chain[j].1 as int,
            ) == data_block(chain, content, j),
    ensures
        upto < chain.len() ==> 254 * upto <= content.len() && chain_content(image, chain, upto)
            == content.take(254 * upto),
        upto == chain.len() ==> chain_content(image, chain, upto) == content,
        payload_len(image, chain, chain.len() - 1) == content.len() - 254 * (chain.len() - 1),
        0 <= payload_len(image, chain, chain.len() - 1) <= 254,
    decreases upto,
{
    let last = chain[chain.len() - 1];
    lemma_offset_in_image(last.0 as int, last.1 as int, tracks as int);
    assert(sector_at(image, last.0 as int, last.1 as int)[1] == image[offset_of(
        last.0 as int,
        last.1 as int,
    ) + 1]);
    if upto > 0 {
        lemma_content_of_written_chain(image, tracks, chain, content, upto - 1);
        let k = upto - 1;
        let address = chain[k];
        lemma_offset_in_image(address.0 as int, address.1 as int, tracks as int);
        let block = sector_at(image, address.0 as int, address.1 as int);
        let count = payload_len(image, chain, k);
        assert(payload(image, chain, k) =~= block.subrange(2, 2 + count));
        assert(block.subrange(2, 2 + count) =~= content.subrange(254 * k, 254 * k + count));
        if upto < chain.len() {
            assert(content.take(254 * k) + content.subrange(254 * k, 254 * k + count)
                =~= content.take(254 * upto));
        } else {
            assert(content.take(254 * k) + content.subrange(254 * k, 254 * k + count)
                =~= content);
        }
    } else {
        assert(content.take(0) =~= Seq::<u8>::empty());
    }
}

/// The image after `insert_file` has succeeded. The chain of the directory
/// is the one it was, and so is every slot but the first empty one, which
/// now names the new file and points at the first sector claimed for it.
/// The sectors that were claimed are all different, none of them is a
/// system sector, each holds its block of the file, and the map in sector
/// (18, 0) marks them allocated.
pub proof fn lemma_inserted_directory(
    image: Seq<u8>,
    tracks: u8,
    name: Seq<char>,
    content: Seq<u8>,
)
    requires
        tracks == 35 || tracks == 40,
        image.len() == image_size(tracks as int),
        system_sectors_are_kept(image, tracks),
        insert_outcome(image, tracks, name, content) is Ok,
    ensures
        ({
            let after = inserted_image(image, tracks, name, content);
            let place = first_empty(image, 0)->0;
            let plan = claimed(map_of(image, tracks), sectors_needed(content.len() as int));
            let chain = plan->Ok_0.0;
            &&& after.len() == image.len()
            &&& 0 <= place < slot_count(image)
            &&& is_proper_chain(chain, tracks)
            &&& chain.len() == sectors_needed(content.len() as int)
            &&& directory_chain(after) == directory_chain(image)
            &&& directory_is_sound(after) == directory_is_sound(image)
            &&& forall|n: int|
                0 <= n < slot_count(image) && n != place ==> #[trigger] slot_number(after, n)
                    == slot_number(image, n)
            &&& entry_is_listed(slot_number(after, place))
            &&& !entry_is_empty(slot_number(after, place))
            &&& entry_start(slot_number(after, place)) == chain[0]
            &&& entry_name(slot_number(after, place)) == stored_name(name)
            &&& forall|j: int|
                0 <= j < chain.len() ==> sector_at(
                    after,
                    (#[trigger] chain[j]).0 as int,
                    chain[j].1 as int,
                ) == data_block(chain, content, j)
            &&& sector_at(after, 18, 0) == encoded(plan->Ok_0.1)
            &&& forall|j: int|
                0 <= j < chain.len() ==> !((#[trigger] chain[j]).0 == 18 && (chain[j].1 == 0
                    || directory_chain(image).contains(chain[j].1)))
            &&& forall|j: int|
                0 <= j < chain.len() && (#[trigger] chain[j]).0 <= 35 ==> !map_of(
                    after,
                    tracks,
                ).is_free(chain[j].0, chain[j].1)
        }),
{
    let map = map_of(image, tracks);
    let n = sectors_needed(content.len() as int);
    let chain = claimed(map, n)->Ok_0.0;
    let map_after = claimed(map, n)->Ok_0.1;
    let entry = new_entry(name, chain[0].0, chain[0].1);
    let slotted = with_appended(image, entry);
    let written = with_chain(slotted, chain, content, chain.len() as int);
    let after = inserted_image(image, tracks, name, content);
    let directory = directory_chain(image);
    lemma_sectors_before(18);
    lemma_sectors_before(19);
    lemma_offset_in_image(18, 0, tracks as int);
    lemma_decoded_is_wf(sector_at(image, 18, 0), tracks);
    lemma_claim_walk(map, Seq::empty(), n);
    assert(is_proper_chain(chain, tracks));
    lemma_directory_chain(image);
    lemma_appended(image, tracks, entry);
    let place = first_empty(image, 0)->0;
    assert(!chain.contains((18u8, 0u8))) by {
        if chain.contains((18u8, 0u8)) {
            let i = choose|i: int| 0 <= i < chain.len() && chain[i] == (18u8, 0u8);
            assert(map.is_free(chain[i].0, chain[i].1));
        }
    }
    assert forall|i: int| 0 <= i < directory.len() implies !chain.contains(
        (18u8, #[trigger] directory[i]),
    ) by {
        if chain.contains((18u8, directory[i])) {
            let j = choose|j: int| 0 <= j < chain.len() && chain[j] == (18u8, directory[i]);
            assert(map.is_free(chain[j].0, chain[j].1));
        }
    }
    lemma_with_chain(slotted, tracks, chain, content, chain.len() as int);
    assert(chain.take(chain.len() as int) =~= chain);
    lemma_encoded_has_256_bytes(map_after);
    assert(after == with_sector(written, 18, 0, encoded(map_after)));
    lemma_with_sector(written, tracks as int, 18, 0, encoded(map_after), 18, 0);
    assert forall|j: int| 0 <= j < chain.len() implies sector_at(
        after,
        (#[trigger] chain[j]).0 as int,
        chain[j].1 as int,
    ) == data_block(chain, content, j) by {
        lemma_with_sector(
            written,
            tracks as int,
            18,
            0,
            encoded(map_after),
            chain[j].0 as int,
            chain[j].1 as int,
        );
    }
    assert forall|i: int| 0 <= i < directory_chain(slotted).len() implies sector_at(
        after,
        18,
        #[trigger] directory_chain(slotted)[i] as int,
    ) == sector_at(slotted, 18, directory_chain(slotted)[i] as int) by {
        let sector = directory[i];
        assert(directory.contains(sector));
        lemma_with_sector(written, tracks as int, 18, 0, encoded(map_after), 18, sector as int);
        assert(sector_at(written, 18u8 as int, sector as int) == sector_at(
            slotted,
            18u8 as int,
            sector as int,
        ));
    }
    lemma_directory_reads_its_sectors(slotted, after, tracks);
    lemma_offset_in_image(18, directory[place / 8] as int, tracks as int);
    lemma_written_slot(slot_number(image, place), name, chain[0].0, chain[0].1);
    assert(slot_number(after, place) == slot_number(slotted, place));
    assert forall|m: int| 0 <= m < slot_count(image) && m != place implies #[trigger] slot_number(
        after,
        m,
    ) == slot_number(image, m) by {
        assert(slot_number(after, m) == slot_number(slotted, m));
    }
    assert forall|j: int| 0 <= j < chain.len() implies !((#[trigger] chain[j]).0 == 18 && (
    chain[j].1 == 0 || directory.contains(chain[j].1))) by {
        assert(map.is_free(chain[j].0, chain[j].1));
        if chain[j].0 == 18 && directory.contains(chain[j].1) {
            let i = choose|i: int| 0 <= i < directory.len() && directory[i] == chain[j].1;
            assert(!map.is_free(18, directory[i]));
        }
    }
    assert(map_of(after, tracks) == decoded(encoded(map_after), tracks));
    assert forall|j: int| 0 <= j < chain.len() && (#[trigger] chain[j]).0 <= 35 implies !map_of(
        after,
        tracks,
    ).is_free(chain[j].0, chain[j].1) by {
        lemma_decode_encoded_track(map_after, chain[j].0, chain[j].1);
    }
}

/// What was inserted is marked. After `insert_file` has succeeded, the map
/// of the image says of every sector on a track up to 35: it is free
/// exactly if it was free before and is none of the sectors that were
/// claimed for the new file.
pub proof fn lemma_insert_allocates_its_chain(
    image: Seq<u8>,
    tracks: u8,
    name: Seq<char>,
    content: Seq<u8>,
    track: u8,
    sector: u8,
)
    requires
        tracks == 35 || tracks == 40,
        image.len() == image_size(tracks as int),
        system_sectors_are_kept(image, tracks),
        insert_outcome(image, tracks, name, content) is Ok,
        valid_address(track as int, sector as int, tracks as int),
        track <= 35,
    ensures
        map_of(inserted_image(image, tracks, name, content), tracks).is_free(track, sector) <==> (
        map_of(image, tracks).is_free(track, sector) && !claimed(
            map_of(image, tracks),
            sectors_needed(content.len() as int),
        )->Ok_0.0.contains((track, sector))),
{
    let map = map_of(image, tracks);
    let n = sectors_needed(content.len() as int);
    let chain = claimed(map, n)->Ok_0.0;
    let map_after = claimed(map, n)->Ok_0.1;
    let after = inserted_image(image, tracks, name, content);
    lemma_sectors_before(18);
    lemma_offset_in_image(18, 0, tracks as int);
    lemma_decoded_is_wf(sector_at(image, 18, 0), tracks);
    lemma_inserted_directory(image, tracks, name, content);
    lemma_claim_walk(map, Seq::empty(), n);
    assert(map_of(after, tracks) == decoded(encoded(map_after), tracks));
    lemma_decode_encoded_track(map_after, track, sector);
    if chain.contains((track, sector)) {
        let i = choose|i: int| 0 <= i < chain.len() && chain[i] == (track, sector);
        assert(!map_after.is_free(chain[i].0, chain[i].1));
    } else if map.is_free(track, sector) {
        lemma_claim_walk_leaves_the_rest(map, Seq::empty(), n, track, sector);
    }
}

/// What was inserted comes back. On a volume that keeps its system sectors,
/// after `insert_file` has succeeded for a name that no file had yet, the
/// file is found under its name, its chain is the sectors that were claimed
/// for it, and `extract_file` gives exactly the bytes that were inserted.
/// The volume still keeps its system sectors.
pub proof fn lemma_insert_then_extract(
    image: Seq<u8>,
    tracks: u8,
    name: Seq<char>,
    content: Seq<u8>,
)
    requires
        tracks == 35 || tracks == 40,
        image.len() == image_size(tracks as int),
        system_sectors_are_kept(image, tracks),
        insert_outcome(image, tracks, name, content) is Ok,
        first_match(image, lookup_name(name), 0) is None,
    ensures
        inserted_image(image, tracks, name, content).len() == image.len(),
        system_sectors_are_kept(inserted_image(image, tracks, name, content), tracks),
        traced(inserted_image(image, tracks, name, content), tracks, lookup_name(name)) == Ok::<
            Seq<(u8, u8)>,
            D64Error,
        >(
            claimed(
                map_of(image, tracks),
                sectors_needed(content.len() as int),
            )->Ok_0.0,
        ),
        extracted(inserted_image(image, tracks, name, content), tracks, lookup_name(name))
            == Ok::<Seq<u8>, D64Error>(content),
        tracks == 35 ==> is_kept_apart(
            inserted_image(image, tracks, name, content),
            tracks,
            claimed(map_of(image, tracks), sectors_needed(content.len() as int))->Ok_0.0,
        ),
{
    let key = lookup_name(name);
    let map = map_of(image, tracks);
    let n = sectors_needed(content.len() as int);
    let chain = claimed(map, n)->Ok_0.0;
    let map_after = claimed(map, n)->Ok_0.1;
    let after = inserted_image(image, tracks, name, content);
    let place = first_empty(image, 0)->0;
    lemma_inserted_directory(image, tracks, name, content);
    // The file is found in the slot that was written.
    lemma_first_match(image, key, 0);
    lemma_first_match_is(after, key, 0, place);
    assert(found_file(after, key) == Ok::<(u8, u8), D64Error>(chain[0]));
    // Its chain is the one that was written, and its bytes are.
    lemma_walk_of_written_chain(after, tracks, chain, content, 0);
    assert(chain.take(0) =~= Seq::<(u8, u8)>::empty());
    lemma_content_of_written_chain(after, tracks, chain, content, chain.len() as int);
    // The system sectors are still kept.
    lemma_sectors_before(18);
    lemma_sectors_before(19);
    lemma_offset_in_image(18, 0, tracks as int);
    lemma_decoded_is_wf(sector_at(image, 18, 0), tracks);
    lemma_claim_walk(map, Seq::empty(), n);
    lemma_directory_chain(image);
    assert(map_of(after, tracks) == decoded(encoded(map_after), tracks));
    lemma_decode_encoded_track(map_after, 18, 0);
    assert forall|i: int| 0 <= i < directory_chain(after).len() implies !map_of(
        after,
        tracks,
    ).is_free(18, #[trigger] directory_chain(after)[i]) by {
        let sector = directory_chain(image)[i];
        lemma_decode_encoded_track(map_after, 18, sector);
        if map_after.is_free(18, sector) {
            assert(map.is_free(18, sector));
        }
    }
    if map_after.is_free(18, 0) {
        assert(map.is_free(18, 0));
    }
}

/// Slots that are not listed add no name.
proof fn lemma_no_names_behind(image: Seq<u8>, from: int, upto: int)
    requires
        0 <= from <= upto,
        forall|n: int| from - 1 <= n < upto ==> !entry_is_listed(#[trigger] slot_number(image, n)),
    ensures
        listed_names(image, upto) == listed_names(image, from - 1),
    decreases upto - from,
{
    if from < upto {
        lemma_no_names_behind(image, from, upto - 1);
    }
}

/// What was inserted is listed. After `insert_file` has succeeded, the
/// directory lists the names it listed before and the new name, as stored,
/// at the place of its slot: behind the names of the slots before it. On a
/// directory that was filled slot by slot that is the end of the list.
pub proof fn lemma_insert_then_list(
    image: Seq<u8>,
    tracks: u8,
    name: Seq<char>,
    content: Seq<u8>,
)
    requires
        tracks == 35 || tracks == 40,
        image.len() == image_size(tracks as int),
        system_sectors_are_kept(image, tracks),
        insert_outcome(image, tracks, name, content) is Ok,
    ensures
        directory_is_sound(inserted_image(image, tracks, name, content)) == directory_is_sound(
            image,
        ),
        file_names(inserted_image(image, tracks, name, content)) == file_names(image).insert(
            listed_names(image, first_empty(image, 0)->0).len() as int,
            stored_name(name),
        ),
        (forall|n: int|
            first_empty(image, 0)->0 < n < slot_count(image) ==> !entry_is_listed(
                #[trigger] slot_number(image, n),
            )) ==> file_names(inserted_image(image, tracks, name, content)) == file_names(
            image,
        ).push(stored_name(name)),
{
    let after = inserted_image(image, tracks, name, content);
    let place = first_empty(image, 0)->0;
    lemma_inserted_directory(image, tracks, name, content);
    lemma_first_empty(image, 0);
    assert(0u8 & 0x07 == 0) by (bit_vector);
    lemma_listed_names_with_one_more(image, after, place, slot_count(image));
    if forall|n: int|
        place < n < slot_count(image) ==> !entry_is_listed(#[trigger] slot_number(image, n)) {
        lemma_no_names_behind(image, place + 1, slot_count(image));
        assert(file_names(image).insert(
            listed_names(image, place).len() as int,
            stored_name(name),
        ) =~= file_names(image).push(stored_name(name)));
    }
}

/// Other names are found as before. After `insert_file` has succeeded,
/// looking for any name but that of the new file gives what it gave before:
/// the same start, or the same error.
pub proof fn lemma_insert_keeps_other_names(
    image: Seq<u8>,
    tracks: u8,
    name: Seq<char>,
    content: Seq<u8>,
    other: Seq<char>,
)
    requires
        tracks == 35 || tracks == 40,
        image.len() == image_size(tracks as int),
        system_sectors_are_kept(image, tracks),
        insert_outcome(image, tracks, name, content) is Ok,
        other != lookup_name(name),
    ensures
        found_file(inserted_image(image, tracks, name, content), other) == found_file(
            image,
            other,
        ),
{
    let after = inserted_image(image, tracks, name, content);
    let place = first_empty(image, 0)->0;
    lemma_inserted_directory(image, tracks, name, content);
    lemma_first_match(image, other, 0);
    lemma_first_match(after, other, 0);
    lemma_first_empty(image, 0);
    assert(0u8 & 0x07 == 0) by (bit_vector);
    assert(!entry_matches(slot_number(image, place), other));
    assert(!entry_matches(slot_number(after, place), other));
    match first_match(image, other, 0) {
        Some(slot) => {
            lemma_first_match_is(after, other, 0, slot);
        },
        None => {
            if first_match(after, other, 0) is Some {
                let slot = first_match(after, other, 0)->0;
                assert(slot_number(after, slot) == slot_number(image, slot));
            }
        },
    }
}

/// A sector that the map had marked allocated, and that is no system
/// sector, holds after `insert_file` what it held before, and is still
/// marked allocated.
pub proof fn lemma_insert_leaves_sector(
    image: Seq<u8>,
    tracks: u8,
    name: Seq<char>,
    content: Seq<u8>,
    track: u8,
    sector: u8,
)
    requires
        tracks == 35 || tracks == 40,
        image.len() == image_size(tracks as int),
        system_sectors_are_kept(image, tracks),
        insert_outcome(image, tracks, name, content) is Ok,
        valid_address(track as int, sector as int, tracks as int),
        !map_of(image, tracks).is_free(track, sector),
        !(track == 18 && (sector == 0 || directory_chain(image).contains(sector))),
    ensures
        sector_at(inserted_image(image, tracks, name, content), track as int, sector as int)
            == sector_at(image, track as int, sector as int),
        track <= 35 ==> !map_of(inserted_image(image, tracks, name, content), tracks).is_free(
            track,
            sector,
        ),
{
    let map = map_of(image, tracks);
    let n = sectors_needed(content.len() as int);
    let chain = claimed(map, n)->Ok_0.0;
    let map_after = claimed(map, n)->Ok_0.1;
    let entry = new_entry(name, chain[0].0, chain[0].1);
    let slotted = with_appended(image, entry);
    let written = with_chain(slotted, chain, content, chain.len() as int);
    let after = inserted_image(image, tracks, name, content);
    let place = first_empty(image, 0)->0;
    lemma_sectors_before(18);
    lemma_sectors_before(19);
    lemma_offset_in_image(18, 0, tracks as int);
    lemma_decoded_is_wf(sector_at(image, 18, 0), tracks);
    lemma_claim_walk(map, Seq::empty(), n);
    lemma_directory_chain(image);
    lemma_appended(image, tracks, entry);
    if track == 18 && sector == directory_chain(image)[place / 8] {
        assert(directory_chain(image).contains(sector));
    }
    assert(sector_at(slotted, track as int, sector as int) == sector_at(
        image,
        track as int,
        sector as int,
    ));
    lemma_with_chain(slotted, tracks, chain, content, chain.len() as int);
    assert(chain.take(chain.len() as int) =~= chain);
    if chain.contains((track, sector)) {
        let j = choose|j: int| 0 <= j < chain.len() && chain[j] == (track, sector);
        assert(map.is_free(chain[j].0, chain[j].1));
    }
    assert(sector_at(written, track as int, sector as int) == sector_at(
        slotted,
        track as int,
        sector as int,
    ));
    lemma_encoded_has_256_bytes(map_after);
    assert(after == with_sector(written, 18, 0, encoded(map_after)));
    lemma_with_sector(
        written,
        tracks as int,
        18,
        0,
        encoded(map_after),
        track as int,
        sector as int,
    );
    lemma_with_sector(written, tracks as int, 18, 0, encoded(map_after), 18, 0);
    assert(map_of(after, tracks) == decoded(encoded(map_after), tracks));
    if track <= 35 {
        lemma_decode_encoded_track(map_after, track, sector);
        if map_after.is_free(track, sector) {
            assert(map.is_free(track, sector));
        }
    }
}

/// What was there stays. After `insert_file` has succeeded, a file that was
/// found before under another name, in sectors that the map had marked
/// allocated and that are no system sectors, is found as before, in the
/// same sectors and with the same bytes: the new file shares no sector with
/// it.
pub proof fn lemma_insert_keeps_other_files(
    image: Seq<u8>,
    tracks: u8,
    name: Seq<char>,
    content: Seq<u8>,
    other: Seq<char>,
)
    requires
        tracks == 35 || tracks == 40,
        image.len() == image_size(tracks as int),
        system_sectors_are_kept(image, tracks),
        insert_outcome(image, tracks, name, content) is Ok,
        other != lookup_name(name),
        traced(image, tracks, other) is Ok,
        is_kept_apart(image, tracks, traced(image, tracks, other)->Ok_0),
    ensures
        traced(inserted_image(image, tracks, name, content), tracks, other) == traced(
            image,
            tracks,
            other,
        ),
        extracted(inserted_image(image, tracks, name, content), tracks, other) == extracted(
            image,
            tracks,
            other,
        ),
        tracks == 35 ==> is_kept_apart(
            inserted_image(image, tracks, name, content),
            tracks,
            traced(image, tracks, other)->Ok_0,
        ),
{
    let after = inserted_image(image, tracks, name, content);
    let theirs = traced(image, tracks, other)->Ok_0;
    let start = found_file(image, other)->Ok_0;
    lemma_inserted_directory(image, tracks, name, content);
    lemma_insert_keeps_other_names(image, tracks, name, content, other);
    lemma_file_walk(image, tracks, Seq::empty(), start);
    assert forall|i: int| 0 <= i < theirs.len() implies sector_at(
        after,
        (#[trigger] theirs[i]).0 as int,
        theirs[i].1 as int,
    ) == sector_at(image, theirs[i].0 as int, theirs[i].1 as int) by {
        lemma_insert_leaves_sector(image, tracks, name, content, theirs[i].0, theirs[i].1);
    }
    lemma_file_walk_reads_its_sectors(image, after, tracks, Seq::empty(), start);
    let last = theirs[theirs.len() - 1];
    lemma_offset_in_image(last.0 as int, last.1 as int, tracks as int);
    assert(sector_at(image, last.0 as int, last.1 as int)[1] == image[offset_of(
        last.0 as int,
        last.1 as int,
    ) + 1]);
    assert(sector_at(after, last.0 as int, last.1 as int)[1] == after[offset_of(
        last.0 as int,
        last.1 as int,
    ) + 1]);
    if payload_len(image, theirs, theirs.len() - 1) <= 254 {
        lemma_chain_content_reads_its_sectors(image, after, tracks, theirs, theirs.len() as int);
    }
    if tracks == 35 {
        assert forall|i: int| 0 <= i < theirs.len() implies !map_of(after, tracks).is_free(
            (#[trigger] theirs[i]).0,
            theirs[i].1,
        ) by {
            lemma_insert_leaves_sector(image, tracks, name, content, theirs[i].0, theirs[i].1);
        }
    }
}

/// A full directory takes no file. Where the directory chain ends cleanly
/// and none of its slots is empty, `insert_file` fails with `DiskFull`,
/// however many sectors the map has free; the directory is as long as its
/// chain, eight slots to the sector, and is never made longer.
pub proof fn lemma_full_directory_takes_no_file(
    image: Seq<u8>,
    tracks: u8,
    name: Seq<char>,
    content: Seq<u8>,
)
    requires
        directory_is_sound(image),
        forall|n: int|
            0 <= n < slot_count(image) ==> !entry_is_empty(#[trigger] slot_number(image, n)),
        name.len() <= 16,
    ensures
        slot_count(image) == 8 * directory_chain(image).len(),
        insert_outcome(image, tracks, name, content) == Err::<(), D64Error>(D64Error::DiskFull),
{
    lemma_first_empty(image, 0);
}

/// A freshly formatted image keeps its system sectors: its directory is
/// sector 1 of track 18 alone, and its map gives no sector of track 18 to
/// files.
pub proof fn lemma_formatted_image_keeps_system_sectors(
    tracks: u8,
    disk_name: Seq<char>,
    disk_id: Seq<char>,
)
    requires
        tracks == 35 || tracks == 40,
        label_fits(disk_name, disk_id),
    ensures
        system_sectors_are_kept(formatted_image(tracks, disk_name, disk_id), tracks),
{
    let image = formatted_image(tracks, disk_name, disk_id);
    let fresh = fresh_map(tracks, disk_name, disk_id);
    lemma_formatted_directory(tracks, disk_name, disk_id);
    lemma_image_sizes();
    lemma_offset_in_image(18, 0, tracks as int);
    assert(sector_at(image, 18, 0) =~= encoded(fresh));
    assert forall|sector: u8| sector < 19 implies !map_of(image, tracks).is_free(18, sector) by {
        lemma_decode_encoded_track(fresh, 18, sector);
        let bit = sector % 8;
        assert(0u8 & (1u8 << bit) == 0) by (bit_vector);
        assert(fresh.bitmap[17][sector as int / 8] == 0);
    }
    assert(seq![1u8][0] == 1u8);
}

/// On a freshly formatted image the first sector to claim is (1, 0), and
/// track 1 has all its 21 sectors free.
pub proof fn lemma_formatted_map(tracks: u8, disk_name: Seq<char>, disk_id: Seq<char>)
    requires
        tracks == 35 || tracks == 40,
        label_fits(disk_name, disk_id),
    ensures
        map_of(formatted_image(tracks, disk_name, disk_id), tracks).first_free() == Some(
            (1u8, 0u8),
        ),
        map_of(formatted_image(tracks, disk_name, disk_id), tracks).free_count(1) == 21,
        map_of(formatted_image(tracks, disk_name, disk_id), tracks).bitmap[0][0] == 0xFF,
        map_of(formatted_image(tracks, disk_name, disk_id), tracks).disk_name == padded(
            petscii_bytes(disk_name),
            16,
        ),
        map_of(formatted_image(tracks, disk_name, disk_id), tracks).disk_id == petscii_bytes(
            disk_id,
        ).take(2),
{
    let image = formatted_image(tracks, disk_name, disk_id);
    let fresh = fresh_map(tracks, disk_name, disk_id);
    let map = map_of(image, tracks);
    lemma_image_sizes();
    lemma_sectors_before(18);
    lemma_offset_in_image(18, 0, tracks as int);
    assert(sector_at(image, 18, 0) =~= encoded(fresh));
    lemma_decode_encoded_track(fresh, 1, 0);
    assert(0xFFu8 & (1u8 << 0u8) != 0) by (bit_vector);
    assert(map.is_free(1, 0));
    assert(map.first_free_from(1, 0) == Some(0u8));
    assert(map.disk_name =~= fresh.disk_name);
    assert(map.disk_id =~= fresh.disk_id);
}

/// The first file on a fresh disk. An image that was formatted and then
/// given one file of at most 254 bytes lists that file and no other, gives
/// its bytes back, holds them in sector (1, 0), and still has the label it
/// was formatted with.
pub proof fn lemma_first_file_on_a_formatted_image(
    tracks: u8,
    disk_name: Seq<char>,
    disk_id: Seq<char>,
    name: Seq<char>,
    content: Seq<u8>,
)
    requires
        tracks == 35 || tracks == 40,
        label_fits(disk_name, disk_id),
        name.len() <= 16,
        content.len() <= 254,
    ensures
        ({
            let image = formatted_image(tracks, disk_name, disk_id);
            let after = inserted_image(image, tracks, name, content);
            &&& insert_outcome(image, tracks, name, content) is Ok
            &&& directory_is_sound(after)
            &&& file_names(after) == seq![stored_name(name)]
            &&& traced(after, tracks, lookup_name(name)) == Ok::<Seq<(u8, u8)>, D64Error>(
                seq![(1u8, 0u8)],
            )
            &&& extracted(after, tracks, lookup_name(name)) == Ok::<Seq<u8>, D64Error>(content)
            &&& field_text(map_of(after, tracks).disk_name) == stored_name(disk_name)
            &&& field_text(map_of(after, tracks).disk_id) == stored_name(disk_id.take(2))
        }),
{
    let image = formatted_image(tracks, disk_name, disk_id);
    let map = map_of(image, tracks);
    let after = inserted_image(image, tracks, name, content);
    lemma_formatted_directory(tracks, disk_name, disk_id);
    lemma_formatted_image_keeps_system_sectors(tracks, disk_name, disk_id);
    lemma_image_sizes();
    lemma_sectors_before(18);
    lemma_offset_in_image(18, 0, tracks as int);
    // The first free sector is (1, 0), and it can be claimed.
    lemma_formatted_map(tracks, disk_name, disk_id);
    assert(sectors_needed(content.len() as int) == 1);
    let one = map.allocated(1, 0);
    assert(claim_walk(one, Seq::<(u8, u8)>::empty().push((1u8, 0u8)), 1) == Ok::<
        (Seq<(u8, u8)>, BamView),
        D64Error,
    >((Seq::<(u8, u8)>::empty().push((1u8, 0u8)), one)));
    assert(claimed(map, 1)->Ok_0.0 =~= seq![(1u8, 0u8)]);
    // No file has the name yet.
    let key = lookup_name(name);
    lemma_first_match(image, key, 0);
    // So the laws of insertion apply.
    lemma_insert_then_extract(image, tracks, name, content);
    lemma_insert_then_list(image, tracks, name, content);
    assert(file_names(image).push(stored_name(name)) =~= seq![stored_name(name)]);
    // The label is the one that was given.
    lemma_inserted_directory(image, tracks, name, content);
    lemma_decoded_is_wf(sector_at(image, 18, 0), tracks);
    lemma_claim_walk(map, Seq::empty(), 1);
    let map_after = claimed(map, 1)->Ok_0.1;
    assert(map_of(after, tracks).disk_name =~= map_after.disk_name);
    assert(map_of(after, tracks).disk_id =~= map_after.disk_id);
    lemma_encoded_text_has_no_fill(disk_name);
    lemma_field_text_of_padded(petscii_bytes(disk_name), 16);
    lemma_encoded_text_has_no_fill(disk_id.take(2));
    assert(petscii_bytes(disk_id).take(2) =~= petscii_bytes(disk_id.take(2)));
    assert(padded(petscii_bytes(disk_id.take(2)), 2) =~= petscii_bytes(disk_id.take(2)));
    lemma_field_text_of_padded(petscii_bytes(disk_id.take(2)), 2);
}

/// One file on a fresh disk, whatever its size. Into an image of 35 tracks
/// that was formatted, a file goes exactly if it needs no more than the 664
/// sectors that are free; it is then the one file listed and gives its
/// bytes back. A larger file is refused with `DiskFull`.
pub proof fn lemma_any_file_on_a_formatted_image(
    disk_name: Seq<char>,
    disk_id: Seq<char>,
    name: Seq<char>,
    content: Seq<u8>,
)
    requires
        label_fits(disk_name, disk_id),
        name.len() <= 16,
    ensures
        ({
            let image = formatted_image(35, disk_name, disk_id);
            let after = inserted_image(image, 35, name, content);
            &&& sectors_needed(content.len() as int) <= 664 ==> {
                &&& insert_outcome(image, 35, name, content) is Ok
                &&& directory_is_sound(after)
                &&& file_names(after) == seq![stored_name(name)]
                &&& extracted(after, 35, lookup_name(name)) == Ok::<Seq<u8>, D64Error>(content)
            }
            &&& sectors_needed(content.len() as int) > 664 ==> insert_outcome(
                image,
                35,
                name,
                content,
            ) == Err::<(), D64Error>(D64Error::DiskFull)
        }),
{
    let image = formatted_image(35, disk_name, disk_id);
    let fresh = fresh_map(35, disk_name, disk_id);
    let needed = sectors_needed(content.len() as int);
    lemma_formatted_directory(35, disk_name, disk_id);
    lemma_formatted_image_keeps_system_sectors(35, disk_name, disk_id);
    lemma_formatted_map(35, disk_name, disk_id);
    lemma_image_sizes();
    lemma_map_of_formatted_image(disk_name, disk_id);
    lemma_fresh_map_counts_agree(35, disk_name, disk_id);
    lemma_fresh_disk_has_664_free_sectors(disk_name, disk_id);
    lemma_claims_succeed_while_sectors_are_free(fresh, Seq::empty(), needed);
    if needed <= 664 {
        lemma_first_match(image, lookup_name(name), 0);
        lemma_insert_then_extract(image, 35, name, content);
        lemma_insert_then_list(image, 35, name, content);
        assert(file_names(image).push(stored_name(name)) =~= seq![stored_name(name)]);
    }
}

/// After the first file of at most 254 bytes has gone to sector (1, 0) of a
/// freshly formatted image, the next sector to claim is (1, 1), and one
/// sector can be claimed.
proof fn lemma_second_sector_is_next(image: Seq<u8>, name: Seq<char>, content: Seq<u8>)
    requires
        image.len() == image_size(35),
        system_sectors_are_kept(image, 35),
        insert_outcome(image, 35, name, content) is Ok,
        content.len() <= 254,
        map_of(image, 35).first_free() == Some((1u8, 0u8)),
        map_of(image, 35).free_count(1) == 21,
        map_of(image, 35).bitmap[0][0] == 0xFF,
    ensures
        ({
            let after = inserted_image(image, 35, name, content);
            &&& map_of(after, 35).first_free() == Some((1u8, 1u8))
            &&& claimed(map_of(after, 35), 1) is Ok
            &&& claimed(map_of(after, 35), 1)->Ok_0.0 == seq![(1u8, 1u8)]
        }),
{
    let map = map_of(image, 35);
    let after = inserted_image(image, 35, name, content);
    let next = map_of(after, 35);
    lemma_sectors_before(18);
    lemma_offset_in_image(18, 0, 35);
    lemma_decoded_is_wf(sector_at(image, 18, 0), 35);
    lemma_inserted_directory(image, 35, name, content);
    assert(sectors_needed(content.len() as int) == 1);
    let first = map.allocated(1, 0);
    assert(claim_walk(first, Seq::<(u8, u8)>::empty().push((1u8, 0u8)), 1) == Ok::<
        (Seq<(u8, u8)>, BamView),
        D64Error,
    >((Seq::<(u8, u8)>::empty().push((1u8, 0u8)), first)));
    let map_after = claimed(map, 1)->Ok_0.1;
    assert(map_after == map.allocated(1, 0));
    lemma_allocated_touches_one_sector(map, 1, 0, 1, 0);
    lemma_decode_encoded_track(map_after, 1, 0);
    lemma_decode_encoded_track(map_after, 1, 1);
    assert(0xFFu8 & !(1u8 << 0u8) == 0xFEu8) by (bit_vector);
    assert(0xFEu8 & (1u8 << 1u8) != 0) by (bit_vector);
    assert(0xFEu8 & (1u8 << 0u8) == 0) by (bit_vector);
    lemma_first_free(map);
    assert(map.is_free(1, 0));
    assert(map_after.bitmap[0][0] == 0xFEu8);
    assert(next == decoded(encoded(map_after), 35));
    assert(next.bitmap[0][0] == 0xFEu8);
    assert(!next.is_free(1, 0));
    assert(next.is_free(1, 1));
    assert(next.first_free_from(1, 1) == Some(1u8));
    assert(next.first_free_from(1, 0) == Some(1u8));
    assert(next.first_free() == Some((1u8, 1u8)));
    assert(next.free_count(1) == 20);
    let two = next.allocated(1, 1);
    assert(claim_walk(two, Seq::<(u8, u8)>::empty().push((1u8, 1u8)), 1) == Ok::<
        (Seq<(u8, u8)>, BamView),
        D64Error,
    >((Seq::<(u8, u8)>::empty().push((1u8, 1u8)), two)));
    assert(claimed(next, 1)->Ok_0.0 =~= seq![(1u8, 1u8)]);
}

/// Two files on a fresh disk. An image of 35 tracks that was formatted and
/// then given two files of at most 254 bytes each, under different names,
/// lists both in the order of insertion, holds the first in sector (1, 0)
/// and the second in sector (1, 1), and gives the bytes of each back.
pub proof fn lemma_two_files_on_a_formatted_image(
    disk_name: Seq<char>,
    disk_id: Seq<char>,
    first: Seq<char>,
    first_content: Seq<u8>,
    second: Seq<char>,
    second_content: Seq<u8>,
)
    requires
        label_fits(disk_name, disk_id),
        first.len() <= 16,
        second.len() <= 16,
        first_content.len() <= 254,
        second_content.len() <= 254,
        lookup_name(first) != lookup_name(second),
    ensures
        ({
            let image = formatted_image(35, disk_name, disk_id);
            let one = inserted_image(image, 35, first, first_content);
            let two = inserted_image(one, 35, second, second_content);
            &&& insert_outcome(image, 35, first, first_content) is Ok
            &&& insert_outcome(one, 35, second, second_content) is Ok
            &&& directory_is_sound(two)
            &&& file_names(two) == seq![stored_name(first), stored_name(second)]
            &&& traced(two, 35, lookup_name(first)) == Ok::<Seq<(u8, u8)>, D64Error>(
                seq![(1u8, 0u8)],
            )
            &&& traced(two, 35, lookup_name(second)) == Ok::<Seq<(u8, u8)>, D64Error>(
                seq![(1u8, 1u8)],
            )
            &&& extracted(two, 35, lookup_name(first)) == Ok::<Seq<u8>, D64Error>(first_content)
            &&& extracted(two, 35, lookup_name(second)) == Ok::<Seq<u8>, D64Error>(
                second_content,
            )
        }),
{
    let image = formatted_image(35, disk_name, disk_id);
    let one = inserted_image(image, 35, first, first_content);
    // The first file.
    lemma_first_file_on_a_formatted_image(35, disk_name, disk_id, first, first_content);
    lemma_formatted_directory(35, disk_name, disk_id);
    lemma_formatted_image_keeps_system_sectors(35, disk_name, disk_id);
    lemma_image_sizes();
    lemma_first_match(image, lookup_name(first), 0);
    lemma_first_match(image, lookup_name(second), 0);
    lemma_insert_then_extract(image, 35, first, first_content);
    lemma_inserted_directory(image, 35, first, first_content);
    lemma_formatted_map(35, disk_name, disk_id);
    lemma_second_sector_is_next(image, first, first_content);
    // The second file finds the directory with its second slot empty.
    lemma_first_empty(image, 0);
    lemma_first_empty(one, 0);
    assert(slot_number(one, 1) == slot_number(image, 1));
    assert(first_empty(one, 0) == Some(1int));
    lemma_insert_keeps_other_names(image, 35, first, first_content, lookup_name(second));
    assert(first_match(one, lookup_name(second), 0) is None);
    lemma_insert_then_extract(one, 35, second, second_content);
    lemma_insert_keeps_other_files(one, 35, second, second_content, lookup_name(first));
    assert forall|n: int| 1 < n < slot_count(one) implies !entry_is_listed(
        #[trigger] slot_number(one, n),
    ) by {
        assert(slot_number(one, n) == slot_number(image, n));
    }
    lemma_insert_then_list(one, 35, second, second_content);
    assert(seq![stored_name(first)].push(stored_name(second)) =~= seq![
        stored_name(first),
        stored_name(second),
    ]);
}

} // verus!

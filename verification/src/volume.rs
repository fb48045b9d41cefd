//! The directories of the states, and the whole volume.

use crate::automaton::{lemma_no_letters_reach_start_only, lemma_step_reachable, Automaton};
use crate::enumerate::discovery_order;
use crate::error::ImageError;
use crate::fat32::{
    append_zeros, block_padded, blocks_for, chains_fit, dir_entry, fat_fault, fat_image, fat_size,
    generate_dir_short, generate_fat, generate_file, generate_header, header_image,
    lemma_block_padded_len, lemma_dir_entry_fields, lemma_fat_fault_stays,
    lemma_short_name_injective, pad_to_block, short_name, total_sectors, zeros, UFat,
    ATTR_DIRECTORY, ATTR_FILE, MATCH_NAME, NOMATCH_NAME, RESERVED_SECTORS,
};
use crate::layout::{
    clusters_before, determine_state_positions, dir_size, lemma_clusters_before_grows,
    reachable_clusters, run_clusters, StateFatMap, StatePosInfo,
};
use vstd::prelude::*;

verus! {

broadcast use vstd::std_specs::hash::group_hash_axioms;

/// The entries of the subdirectories for the first `count` letters, each
/// with the cluster that `targets` gives it.
pub open spec fn records(alphabet: Seq<u8>, targets: Seq<u32>, count: int) -> Seq<u8>
    decreases count,
{
    if count <= 0 {
        Seq::empty()
    } else {
        records(alphabet, targets, count - 1) + dir_entry(
            short_name(alphabet[count - 1]),
            ATTR_DIRECTORY,
            targets[count - 1],
        )
    }
}

/// The entry of the marker file: `MATCH` in the directory of an accepting
/// state, `NOMATCH` in that of a rejecting state where those are asked for,
/// and none otherwise.
pub open spec fn marker_entry(accepting: bool, nomatch: bool, marker_cluster: u32) -> Seq<u8> {
    if accepting {
        dir_entry(MATCH_NAME@, ATTR_FILE, marker_cluster)
    } else if nomatch {
        dir_entry(NOMATCH_NAME@, ATTR_FILE, marker_cluster)
    } else {
        Seq::empty()
    }
}

/// The entries of a directory: a subdirectory for every letter, in the
/// order of the alphabet, and then the marker file.
pub open spec fn directory_listing(
    alphabet: Seq<u8>,
    targets: Seq<u32>,
    accepting: bool,
    nomatch: bool,
    marker_cluster: u32,
) -> Seq<u8> {
    records(alphabet, targets, alphabet.len() as int) + marker_entry(
        accepting,
        nomatch,
        marker_cluster,
    )
}

/// The clusters of a directory: its entries, and zeros up to the end of the
/// last cluster.
pub open spec fn directory_image(
    alphabet: Seq<u8>,
    targets: Seq<u32>,
    accepting: bool,
    nomatch: bool,
    marker_cluster: u32,
) -> Seq<u8> {
    block_padded(directory_listing(alphabet, targets, accepting, nomatch, marker_cluster))
}

/// Every entry has 32 bytes.
pub proof fn lemma_records_len(alphabet: Seq<u8>, targets: Seq<u32>, count: int)
    requires
        0 <= count <= alphabet.len(),
    ensures
        records(alphabet, targets, count).len() == 32 * count,
    decreases count,
{
    if count > 0 {
        lemma_records_len(alphabet, targets, count - 1);
        lemma_short_name_injective(alphabet[count - 1], alphabet[count - 1]);
        lemma_dir_entry_fields(short_name(alphabet[count - 1]), ATTR_DIRECTORY, targets[count - 1]);
    }
}

/// A directory has the size that the layout gives it, and fills whole
/// clusters.
pub proof fn lemma_directory_len(
    alphabet: Seq<u8>,
    targets: Seq<u32>,
    accepting: bool,
    nomatch: bool,
    marker_cluster: u32,
)
    ensures
        directory_listing(alphabet, targets, accepting, nomatch, marker_cluster).len() == dir_size(
            alphabet.len(),
            accepting,
            nomatch,
        ),
        directory_image(alphabet, targets, accepting, nomatch, marker_cluster).len() == 512
            * blocks_for(dir_size(alphabet.len(), accepting, nomatch)),
{
    lemma_records_len(alphabet, targets, alphabet.len() as int);
    lemma_dir_entry_fields(MATCH_NAME@, ATTR_FILE, marker_cluster);
    lemma_dir_entry_fields(NOMATCH_NAME@, ATTR_FILE, marker_cluster);
    let listing = directory_listing(alphabet, targets, accepting, nomatch, marker_cluster);
    assert(marker_entry(accepting, nomatch, marker_cluster).len() == if accepting || nomatch {
        32nat
    } else {
        0nat
    });
    assert(listing.len() == dir_size(alphabet.len(), accepting, nomatch));
    lemma_block_padded_len(listing);
}

/// The clusters of a directory with a subdirectory for every letter of
/// `alphabet`, the one for the letter at an index beginning at the cluster
/// that `targets` holds at that index, and with the marker file that
/// `accepting` and `nomatch` ask for, whose first-cluster field is
/// `marker_cluster`.
pub fn generate_directory(
    alphabet: &[u8],
    targets: &Vec<UFat>,
    accepting: bool,
    nomatch: bool,
    marker_cluster: UFat,
) -> (directory: Vec<u8>)
    requires
        targets@.len() == alphabet@.len(),
    ensures
        directory@ == directory_image(alphabet@, targets@, accepting, nomatch, marker_cluster),
{
    let mut current_dir: Vec<u8> = Vec::new();
    let mut index: usize = 0;
    while index < alphabet.len()
        invariant
            index <= alphabet@.len(),
            targets@.len() == alphabet@.len(),
            current_dir@ == records(alphabet@, targets@, index as int),
        decreases alphabet@.len() - index,
    {
        let mut entry = generate_dir_short(alphabet[index], targets[index]);
        current_dir.append(&mut entry);
        index += 1;
    }
    if accepting {
        let mut entry = generate_file(MATCH_NAME, marker_cluster);
        current_dir.append(&mut entry);
    } else if nomatch {
        let mut entry = generate_file(NOMATCH_NAME, marker_cluster);
        current_dir.append(&mut entry);
    } else {
        assert(current_dir@ =~= current_dir@ + Seq::<u8>::empty());
    }
    pad_to_block(&mut current_dir);
    current_dir
}

/// The first clusters of the directories of the successors of `state`, one
/// for every letter.
pub open spec fn successor_clusters(
    a: Automaton,
    alphabet: Seq<u8>,
    pos: Map<usize, StatePosInfo>,
    state: usize,
) -> Seq<u32> {
    Seq::new(alphabet.len(), |k: int| pos[a.next(state, alphabet[k])].block)
}

/// The clusters of the directory of `state`: each subdirectory begins at the
/// directory of the successor, and the marker file names the first cluster
/// behind all directories.
pub open spec fn state_directory(
    a: Automaton,
    alphabet: Seq<u8>,
    map: StateFatMap,
    nomatch: bool,
    state: usize,
) -> Seq<u8> {
    directory_image(
        alphabet,
        successor_clusters(a, alphabet, map.pos_hash@, state),
        a.accepts(state),
        nomatch,
        (map.blocks + 2) as u32,
    )
}

/// The clusters of the directory of `state`.
pub fn generate_state_directory(
    automaton: &Automaton,
    validlist: &[u8],
    state_blocks: &StateFatMap,
    state: usize,
    nomatch: bool,
) -> (directory: Vec<u8>)
    requires
        state_blocks.lays_out(*automaton, validlist@, nomatch),
        state_blocks.order_list@.contains(state),
    ensures
        directory@ == state_directory(*automaton, validlist@, *state_blocks, nomatch, state),
{
    let ghost order = state_blocks.order_list@;
    let ghost pos = state_blocks.pos_hash@;
    proof {
        let i = choose|i: int| 0 <= i < order.len() && order[i] == state;
        assert(automaton.has_state(order[i]));
    }
    let mut targets: Vec<UFat> = Vec::new();
    let mut index: usize = 0;
    while index < validlist.len()
        invariant
            index <= validlist@.len(),
            order == state_blocks.order_list@,
            pos == state_blocks.pos_hash@,
            state_blocks.lays_out(*automaton, validlist@, nomatch),
            automaton.has_state(state),
            automaton.reachable(validlist@, state),
            targets@.len() == index,
            forall|k: int|
                0 <= k < index ==> targets@[k] == pos[automaton.next(state, validlist@[k])].block,
        decreases validlist@.len() - index,
    {
        let next_state: usize = automaton.next_state(state, validlist[index]);
        proof {
            assert(validlist@.contains(validlist@[index as int]));
            lemma_step_reachable(*automaton, validlist@, state, validlist@[index as int]);
            assert(order.contains(next_state));
            assert(pos.dom().contains(next_state));
        }
        let state_block: UFat = match state_blocks.pos_hash.get(&next_state) {
            Some(place) => place.block,
            None => vstd::pervasive::unreached(),
        };
        targets.push(state_block);
        index += 1;
    }
    assert(targets@ =~= successor_clusters(*automaton, validlist@, pos, state));
    let accepting: bool = automaton.is_match_state(state);
    generate_directory(validlist, &targets, accepting, nomatch, state_blocks.blocks + 2)
}

/// The clusters behind the directories: as many as bring the data area to
/// 65536 clusters, and one at least.
pub open spec fn padding(blocks: nat) -> nat {
    if blocks < 65535 {
        (65536 - blocks) as nat
    } else {
        1
    }
}

/// The clusters behind the directories: as many as bring the data area to
/// 65536 clusters, and one at least, for the marker files to name.
pub fn pad_clusters(blocks: UFat) -> (pad: UFat)
    ensures
        pad == padding(blocks as nat),
        pad >= 1,
        blocks + pad >= 65536,
{
    if blocks < 65535 {
        65536 - blocks
    } else {
        1
    }
}

/// The directories of the first `count` states, one behind the other.
pub open spec fn directories(
    a: Automaton,
    alphabet: Seq<u8>,
    map: StateFatMap,
    nomatch: bool,
    count: int,
) -> Seq<u8>
    decreases count,
{
    if count <= 0 {
        Seq::empty()
    } else {
        directories(a, alphabet, map, nomatch, count - 1) + state_directory(
            a,
            alphabet,
            map,
            nomatch,
            map.order_list@[count - 1],
        )
    }
}

/// The data clusters of the volume: those of the directories and those
/// behind them.
pub open spec fn data_clusters(map: StateFatMap) -> nat {
    map.blocks as nat + padding(map.blocks as nat)
}

/// The whole volume: the reserved sectors, the table, the directories in
/// the order of the list, and the zeroed clusters behind them.
pub open spec fn volume_image(
    a: Automaton,
    alphabet: Seq<u8>,
    map: StateFatMap,
    nomatch: bool,
) -> Seq<u8> {
    header_image(data_clusters(map)) + fat_image(
        map.order_list@,
        map.pos_hash@,
        padding(map.blocks as nat),
    ) + directories(a, alphabet, map, nomatch, map.order_list@.len() as int) + zeros(
        512 * padding(map.blocks as nat),
    )
}

/// In a well-formed layout every chain has cluster numbers of 32 bits.
pub proof fn lemma_wf_chains_fit(map: StateFatMap)
    requires
        map.wf(),
    ensures
        chains_fit(map.order_list@, map.pos_hash@),
{
    assert forall|index: int|
        0 <= index <= map.order_list@.len() implies 2 + #[trigger] clusters_before(
        map.order_list@,
        map.pos_hash@,
        index,
    ) <= u32::MAX by {
        lemma_clusters_before_grows(
            map.order_list@,
            map.pos_hash@,
            index,
            map.order_list@.len() as int,
        );
    }
}

/// Whether some reachable state has a directory without entries: there are
/// no letters, and the start state gets no marker file.
pub open spec fn has_empty_directory(a: Automaton, alphabet: Seq<u8>, nomatch: bool) -> bool {
    alphabet.len() == 0 && !nomatch && !a.accepts(a.start())
}

/// The table of a layout of the reachable states lacks a chain only where a
/// directory is empty.
pub proof fn lemma_layout_fault(a: Automaton, alphabet: Seq<u8>, map: StateFatMap, nomatch: bool)
    requires
        map.lays_out(a, alphabet, nomatch),
    ensures
        fat_fault(map.order_list@, map.pos_hash@, map.order_list@.len() as int)
            == if has_empty_directory(a, alphabet, nomatch) {
            Some(ImageError::ZeroSizeState)
        } else {
            None
        },
{
    let order = map.order_list@;
    let pos = map.pos_hash@;
    if has_empty_directory(a, alphabet, nomatch) {
        assert(map.dir_bytes(order[0]) == 0);
        assert(order.contains(order[0]));
        assert(fat_fault(order, pos, 0) is None);
        assert(fat_fault(order, pos, 1) == Some(ImageError::ZeroSizeState));
        lemma_fat_fault_stays(order, pos, 1, order.len() as int);
    } else {
        lemma_no_fault_upto(a, alphabet, map, nomatch, order.len() as int);
    }
}

proof fn lemma_no_fault_upto(
    a: Automaton,
    alphabet: Seq<u8>,
    map: StateFatMap,
    nomatch: bool,
    index: int,
)
    requires
        map.lays_out(a, alphabet, nomatch),
        !has_empty_directory(a, alphabet, nomatch),
        0 <= index <= map.order_list@.len(),
    ensures
        fat_fault(map.order_list@, map.pos_hash@, index) is None,
    decreases index,
{
    if index > 0 {
        let order = map.order_list@;
        lemma_no_fault_upto(a, alphabet, map, nomatch, index - 1);
        let state = order[index - 1];
        assert(order.contains(state));
        assert(map.dir_bytes(state) == dir_size(alphabet.len(), a.accepts(state), nomatch));
        if alphabet.len() == 0 {
            lemma_no_letters_reach_start_only(a, alphabet, state);
        }
        assert(run_clusters(map.pos_hash@, state) > 0);
    }
}

/// The volume for a layout: the reserved sectors, the table, the directory
/// of every state, and the clusters behind them. Fails where the volume
/// would have more sectors than 32 bits count, or a directory no entry.
pub fn assemble_volume(
    automaton: &Automaton,
    validlist: &[u8],
    state_blocks: &StateFatMap,
    nomatch: bool,
) -> (volume: Result<Vec<u8>, ImageError>)
    requires
        state_blocks.lays_out(*automaton, validlist@, nomatch),
    ensures
        volume is Ok <==> total_sectors(data_clusters(*state_blocks)) <= u32::MAX
            && !has_empty_directory(*automaton, validlist@, nomatch),
        volume matches Err(error) ==> if total_sectors(data_clusters(*state_blocks)) > u32::MAX {
            error is CapacityExceeded
        } else {
            error is ZeroSizeState
        },
        volume matches Ok(bytes) ==> bytes@ == volume_image(
            *automaton,
            validlist@,
            *state_blocks,
            nomatch,
        ),
{
    let pad: UFat = pad_clusters(state_blocks.blocks);
    let clusters: UFat = state_blocks.blocks + pad;
    if clusters > u32::MAX - RESERVED_SECTORS - fat_size(clusters) {
        return Err(ImageError::CapacityExceeded);
    }
    proof {
        lemma_wf_chains_fit(*state_blocks);
        lemma_layout_fault(*automaton, validlist@, *state_blocks, nomatch);
    }
    let mut vol = generate_header(clusters);
    let mut fat = match generate_fat(state_blocks, pad) {
        Ok(fat) => fat,
        Err(error) => {
            return Err(error);
        },
    };
    vol.append(&mut fat);
    let mut index: usize = 0;
    while index < state_blocks.order_list.len()
        invariant
            index <= state_blocks.order_list@.len(),
            state_blocks.lays_out(*automaton, validlist@, nomatch),
            vol@ == header_image(data_clusters(*state_blocks)) + fat_image(
                state_blocks.order_list@,
                state_blocks.pos_hash@,
                padding(state_blocks.blocks as nat),
            ) + directories(*automaton, validlist@, *state_blocks, nomatch, index as int),
        decreases state_blocks.order_list@.len() - index,
    {
        let state: usize = state_blocks.order_list[index];
        assert(state_blocks.order_list@.contains(state));
        let mut current_dir = generate_state_directory(
            automaton,
            validlist,
            state_blocks,
            state,
            nomatch,
        );
        let ghost before = vol@;
        vol.append(&mut current_dir);
        assert(vol@ =~= header_image(data_clusters(*state_blocks)) + fat_image(
            state_blocks.order_list@,
            state_blocks.pos_hash@,
            padding(state_blocks.blocks as nat),
        ) + directories(*automaton, validlist@, *state_blocks, nomatch, index + 1));
        index += 1;
    }
    append_zeros(&mut vol, 512 * (pad as usize));
    Ok(vol)
}

/// Whether a volume for the reachable states has no more sectors than 32
/// bits count.
pub open spec fn volume_fits(a: Automaton, alphabet: Seq<u8>, nomatch: bool) -> bool {
    total_sectors(
        reachable_clusters(a, alphabet, nomatch) + padding(
            reachable_clusters(a, alphabet, nomatch),
        ),
    ) <= u32::MAX
}

/// Whether `bytes` is the volume that `map` lays out for the states that
/// `alphabet` reaches.
pub open spec fn is_volume_of(
    bytes: Seq<u8>,
    a: Automaton,
    alphabet: Seq<u8>,
    nomatch: bool,
    map: StateFatMap,
) -> bool {
    &&& map.lays_out(a, alphabet, nomatch)
    &&& map.order_list@.to_multiset() == discovery_order(a, alphabet).to_multiset()
    &&& bytes == volume_image(a, alphabet, map, nomatch)
}

/// The volume whose directories are the states that `validlist` reaches:
/// in the order of their discovery or, with `randomize`, with all but the
/// start state in a random order. Fails where the volume would have more
/// sectors than 32 bits count, or a directory no entry.
pub fn regex_to_fat32(
    automaton: &Automaton,
    validlist: &[u8],
    nomatch: bool,
    randomize: bool,
) -> (volume: Result<Vec<u8>, ImageError>)
    requires
        32 * (validlist@.len() + 1) <= usize::MAX,
    ensures
        volume is Ok <==> volume_fits(*automaton, validlist@, nomatch) && !has_empty_directory(
            *automaton,
            validlist@,
            nomatch,
        ),
        volume matches Err(error) ==> if !volume_fits(*automaton, validlist@, nomatch) {
            error is CapacityExceeded
        } else {
            error is ZeroSizeState
        },
        volume matches Ok(bytes) ==> exists|map: StateFatMap| #[trigger]
            is_volume_of(bytes@, *automaton, validlist@, nomatch, map) && (!randomize
                ==> map.order_list@ == discovery_order(*automaton, validlist@)),
{
    let state_blocks = match determine_state_positions(automaton, validlist, nomatch, randomize) {
        Ok(map) => map,
        Err(error) => {
            return Err(error);
        },
    };
    let volume = assemble_volume(automaton, validlist, &state_blocks, nomatch);
    proof {
        if volume is Ok {
            assert(is_volume_of(volume->Ok_0@, *automaton, validlist@, nomatch, state_blocks));
        }
    }
    volume
}

} // verus!

//! Where the parts of the volume lie, and what lies there.

use crate::automaton::Automaton;
use crate::fat32::{
    dir_entry, entry_attributes, entry_cluster, entry_name, fat_image, fat_sectors, header_image,
    lemma_dir_entry_fields, lemma_fat_image_len, lemma_header_fields,
    lemma_short_name_injective, short_name, total_sectors, u32_from_le, zeros, ATTR_DIRECTORY,
};
use crate::enumerate::lemma_order_counts_reachable;
use crate::layout::{
    clusters_before, lemma_first_state_at_root, lemma_runs_disjoint, run_clusters, StateFatMap,
};
use crate::volume::{
    data_clusters, directories, directory_image, directory_listing, lemma_directory_len,
    lemma_records_len, marker_entry, padding, records, state_directory, successor_clusters,
    volume_image,
};
use vstd::prelude::*;

verus! {

/// The part of a concatenation that lies in its first sequence.
pub proof fn lemma_subrange_of_left(left: Seq<u8>, right: Seq<u8>, from: int, to: int)
    requires
        0 <= from <= to <= left.len(),
    ensures
        (left + right).subrange(from, to) == left.subrange(from, to),
{
    assert((left + right).subrange(from, to) =~= left.subrange(from, to));
}

/// The part of a concatenation that lies in its second sequence.
pub proof fn lemma_subrange_of_right(left: Seq<u8>, right: Seq<u8>, from: int, to: int)
    requires
        left.len() <= from <= to <= left.len() + right.len(),
    ensures
        (left + right).subrange(from, to) == right.subrange(from - left.len(), to - left.len()),
{
    assert((left + right).subrange(from, to) =~= right.subrange(
        from - left.len(),
        to - left.len(),
    ));
}

/// The byte at which the data area begins.
pub open spec fn data_offset(map: StateFatMap) -> int {
    4096 + 512 * (fat_sectors(data_clusters(map)) as int)
}

/// The byte at which a cluster begins.
pub open spec fn cluster_offset(map: StateFatMap, cluster: int) -> int {
    data_offset(map) + 512 * (cluster - 2)
}

/// The directories of the first `count` states fill the clusters that the
/// layout gives them.
pub proof fn lemma_directories_len(
    a: Automaton,
    alphabet: Seq<u8>,
    map: StateFatMap,
    nomatch: bool,
    count: int,
)
    requires
        map.lays_out(a, alphabet, nomatch),
        0 <= count <= map.order_list@.len(),
    ensures
        directories(a, alphabet, map, nomatch, count).len() == 512 * clusters_before(
            map.order_list@,
            map.pos_hash@,
            count,
        ),
    decreases count,
{
    if count > 0 {
        lemma_directories_len(a, alphabet, map, nomatch, count - 1);
        lemma_state_directory_len(a, alphabet, map, nomatch, count - 1);
    }
}

/// The directory of a listed state fills the clusters of its run.
pub proof fn lemma_state_directory_len(
    a: Automaton,
    alphabet: Seq<u8>,
    map: StateFatMap,
    nomatch: bool,
    index: int,
)
    requires
        map.lays_out(a, alphabet, nomatch),
        0 <= index < map.order_list@.len(),
    ensures
        state_directory(a, alphabet, map, nomatch, map.order_list@[index]).len() == 512
            * run_clusters(map.pos_hash@, map.order_list@[index]),
{
    let state = map.order_list@[index];
    assert(map.dir_bytes(state) == crate::layout::dir_size(
        alphabet.len(),
        a.accepts(state),
        nomatch,
    ));
    lemma_directory_len(
        alphabet,
        successor_clusters(a, alphabet, map.pos_hash@, state),
        a.accepts(state),
        nomatch,
        (map.blocks + 2) as u32,
    );
}

/// Among the directories of the first `count` states, that of the state at
/// `index` lies behind the clusters of the states before it.
pub proof fn lemma_directories_at(
    a: Automaton,
    alphabet: Seq<u8>,
    map: StateFatMap,
    nomatch: bool,
    count: int,
    index: int,
)
    requires
        map.lays_out(a, alphabet, nomatch),
        0 <= index < count <= map.order_list@.len(),
    ensures
        512 * clusters_before(map.order_list@, map.pos_hash@, index) + 512 * run_clusters(
            map.pos_hash@,
            map.order_list@[index],
        ) <= directories(a, alphabet, map, nomatch, count).len(),
        directories(a, alphabet, map, nomatch, count).subrange(
            512 * (clusters_before(map.order_list@, map.pos_hash@, index) as int),
            512 * (clusters_before(map.order_list@, map.pos_hash@, index) as int) + 512 * (
            run_clusters(map.pos_hash@, map.order_list@[index]) as int),
        ) == state_directory(a, alphabet, map, nomatch, map.order_list@[index]),
    decreases count,
{
    let order = map.order_list@;
    let pos = map.pos_hash@;
    let before = directories(a, alphabet, map, nomatch, count - 1);
    let last = state_directory(a, alphabet, map, nomatch, order[count - 1]);
    let from = 512 * clusters_before(order, pos, index);
    let to = from + 512 * run_clusters(pos, order[index]);
    lemma_directories_len(a, alphabet, map, nomatch, count - 1);
    lemma_directories_len(a, alphabet, map, nomatch, count);
    lemma_state_directory_len(a, alphabet, map, nomatch, count - 1);
    if index < count - 1 {
        lemma_directories_at(a, alphabet, map, nomatch, count - 1, index);
        lemma_subrange_of_left(before, last, from as int, to as int);
    } else {
        lemma_subrange_of_right(before, last, from as int, to as int);
        assert(last.subrange(0, last.len() as int) =~= last);
    }
}

/// The volume has the sectors that its boot sector announces: the field at
/// offset 32 holds their number.
pub proof fn lemma_volume_size(a: Automaton, alphabet: Seq<u8>, map: StateFatMap, nomatch: bool)
    requires
        map.lays_out(a, alphabet, nomatch),
        total_sectors(data_clusters(map)) <= u32::MAX,
    ensures
        volume_image(a, alphabet, map, nomatch).len() == 512 * total_sectors(data_clusters(map)),
        u32_from_le(volume_image(a, alphabet, map, nomatch).subrange(32, 36)) == total_sectors(
            data_clusters(map),
        ),
        total_sectors(data_clusters(map)) == 8 + fat_sectors(data_clusters(map)) + data_clusters(
            map,
        ),
        data_clusters(map) >= 65536,
{
    lemma_volume_parts(a, alphabet, map, nomatch);
    let header = header_image(data_clusters(map));
    let volume = volume_image(a, alphabet, map, nomatch);
    lemma_header_fields(data_clusters(map));
    assert(volume.subrange(32, 36) =~= header.subrange(32, 36));
}

/// The reserved sectors, the table and the data area follow one another.
pub proof fn lemma_volume_parts(a: Automaton, alphabet: Seq<u8>, map: StateFatMap, nomatch: bool)
    requires
        map.lays_out(a, alphabet, nomatch),
        total_sectors(data_clusters(map)) <= u32::MAX,
    ensures
        volume_image(a, alphabet, map, nomatch).len() == 512 * total_sectors(data_clusters(map)),
        volume_image(a, alphabet, map, nomatch).len() == data_offset(map) + 512 * data_clusters(
            map,
        ),
        volume_image(a, alphabet, map, nomatch).subrange(0, 4096) == header_image(
            data_clusters(map),
        ),
        volume_image(a, alphabet, map, nomatch).subrange(4096, data_offset(map)) == fat_image(
            map.order_list@,
            map.pos_hash@,
            padding(map.blocks as nat),
        ),
        volume_image(a, alphabet, map, nomatch).subrange(
            data_offset(map),
            data_offset(map) + 512 * map.blocks,
        ) == directories(a, alphabet, map, nomatch, map.order_list@.len() as int),
        volume_image(a, alphabet, map, nomatch).subrange(
            data_offset(map) + 512 * map.blocks,
            data_offset(map) + 512 * data_clusters(map),
        ) == zeros(512 * padding(map.blocks as nat)),
{
    let header = header_image(data_clusters(map));
    let fat = fat_image(map.order_list@, map.pos_hash@, padding(map.blocks as nat));
    let dirs = directories(a, alphabet, map, nomatch, map.order_list@.len() as int);
    let tail = zeros(512 * padding(map.blocks as nat));
    let volume = volume_image(a, alphabet, map, nomatch);
    lemma_header_fields(data_clusters(map));
    lemma_fat_image_len(map, padding(map.blocks as nat));
    lemma_directories_len(a, alphabet, map, nomatch, map.order_list@.len() as int);
    assert(header.len() == 4096);
    assert(fat.len() == 512 * fat_sectors(data_clusters(map)));
    assert(dirs.len() == 512 * map.blocks);
    assert(volume == header + fat + dirs + tail);
    assert(volume.subrange(0, 4096) =~= header);
    assert(volume.subrange(4096, data_offset(map)) =~= fat);
    assert(volume.subrange(data_offset(map), data_offset(map) + 512 * map.blocks) =~= dirs);
    assert(volume.subrange(
        data_offset(map) + 512 * map.blocks,
        data_offset(map) + 512 * data_clusters(map),
    ) =~= tail);
}

/// The clusters of the run of a state hold its directory.
pub proof fn lemma_volume_directory(
    a: Automaton,
    alphabet: Seq<u8>,
    map: StateFatMap,
    nomatch: bool,
    index: int,
)
    requires
        map.lays_out(a, alphabet, nomatch),
        total_sectors(data_clusters(map)) <= u32::MAX,
        0 <= index < map.order_list@.len(),
    ensures
        cluster_offset(map, map.first_cluster(map.order_list@[index]) as int) + 512
            * map.cluster_run(map.order_list@[index]) <= data_offset(map) + 512 * map.blocks,
        volume_image(a, alphabet, map, nomatch).subrange(
            cluster_offset(map, map.first_cluster(map.order_list@[index]) as int),
            cluster_offset(map, map.first_cluster(map.order_list@[index]) as int) + 512
                * map.cluster_run(map.order_list@[index]),
        ) == state_directory(a, alphabet, map, nomatch, map.order_list@[index]),
{
    let order = map.order_list@;
    let pos = map.pos_hash@;
    let volume = volume_image(a, alphabet, map, nomatch);
    let dirs = directories(a, alphabet, map, nomatch, order.len() as int);
    let from = 512 * clusters_before(order, pos, index);
    let to = from + 512 * run_clusters(pos, order[index]);
    lemma_volume_parts(a, alphabet, map, nomatch);
    lemma_directories_at(a, alphabet, map, nomatch, order.len() as int, index);
    lemma_directories_len(a, alphabet, map, nomatch, order.len() as int);
    assert(map.first_cluster(order[index]) == 2 + clusters_before(order, pos, index));
    assert(cluster_offset(map, map.first_cluster(order[index]) as int) == data_offset(map) + from);
    let area = volume.subrange(data_offset(map), data_offset(map) + 512 * map.blocks);
    assert(area.subrange(from as int, to as int) =~= volume.subrange(
        data_offset(map) + from,
        data_offset(map) + to,
    ));
}

/// The entry for the letter at `letter` among the entries of the first
/// `count` letters.
pub proof fn lemma_records_at(alphabet: Seq<u8>, targets: Seq<u32>, count: int, letter: int)
    requires
        0 <= letter < count <= alphabet.len(),
    ensures
        records(alphabet, targets, count).len() == 32 * count,
        records(alphabet, targets, count).subrange(32 * letter, 32 * letter + 32) == dir_entry(
            short_name(alphabet[letter]),
            ATTR_DIRECTORY,
            targets[letter],
        ),
    decreases count,
{
    let before = records(alphabet, targets, count - 1);
    let last = dir_entry(short_name(alphabet[count - 1]), ATTR_DIRECTORY, targets[count - 1]);
    lemma_records_len(alphabet, targets, count - 1);
    lemma_records_len(alphabet, targets, count);
    if letter < count - 1 {
        lemma_records_at(alphabet, targets, count - 1, letter);
        lemma_subrange_of_left(before, last, 32 * letter, 32 * letter + 32);
    } else {
        lemma_subrange_of_right(before, last, 32 * letter, 32 * letter + 32);
        assert(last.subrange(0, 32) =~= last);
    }
}

/// A part of a part of a sequence.
pub proof fn lemma_subrange_of_subrange(bytes: Seq<u8>, from: int, to: int, inner: int, end: int)
    requires
        0 <= from <= to <= bytes.len(),
        0 <= inner <= end <= to - from,
    ensures
        bytes.subrange(from, to).subrange(inner, end) == bytes.subrange(from + inner, from + end),
{
    assert(bytes.subrange(from, to).subrange(inner, end) =~= bytes.subrange(
        from + inner,
        from + end,
    ));
}

/// The entry for the letter at `letter` in a directory.
pub proof fn lemma_directory_entry(
    alphabet: Seq<u8>,
    targets: Seq<u32>,
    accepting: bool,
    nomatch: bool,
    marker_cluster: u32,
    letter: int,
)
    requires
        0 <= letter < alphabet.len(),
    ensures
        32 * letter + 32 <= directory_image(
            alphabet,
            targets,
            accepting,
            nomatch,
            marker_cluster,
        ).len(),
        directory_image(alphabet, targets, accepting, nomatch, marker_cluster).subrange(
            32 * letter,
            32 * letter + 32,
        ) == dir_entry(short_name(alphabet[letter]), ATTR_DIRECTORY, targets[letter]),
{
    let entries = records(alphabet, targets, alphabet.len() as int);
    let marker = marker_entry(accepting, nomatch, marker_cluster);
    let listing = directory_listing(alphabet, targets, accepting, nomatch, marker_cluster);
    let directory = directory_image(alphabet, targets, accepting, nomatch, marker_cluster);
    lemma_records_at(alphabet, targets, alphabet.len() as int, letter);
    lemma_subrange_of_left(entries, marker, 32 * letter, 32 * letter + 32);
    lemma_subrange_of_left(
        listing,
        zeros(((512 - listing.len() % 512) % 512) as nat),
        32 * letter,
        32 * letter + 32,
    );
}

/// In the volume, the entry for a letter in the directory of a state names
/// the first cluster of the directory of the successor on that letter.
pub proof fn lemma_entry_names_successor(
    a: Automaton,
    alphabet: Seq<u8>,
    map: StateFatMap,
    nomatch: bool,
    index: int,
    letter: int,
)
    requires
        map.lays_out(a, alphabet, nomatch),
        total_sectors(data_clusters(map)) <= u32::MAX,
        0 <= index < map.order_list@.len(),
        0 <= letter < alphabet.len(),
    ensures
        ({
            let state = map.order_list@[index];
            let at = cluster_offset(map, map.first_cluster(state) as int) + 32 * letter;
            let entry = volume_image(a, alphabet, map, nomatch).subrange(at, at + 32);
            &&& at + 32 <= volume_image(a, alphabet, map, nomatch).len()
            &&& entry_name(entry) == short_name(alphabet[letter])
            &&& entry_attributes(entry) == ATTR_DIRECTORY
            &&& entry_cluster(entry) == map.first_cluster(a.next(state, alphabet[letter]))
        }),
{
    let state = map.order_list@[index];
    let volume = volume_image(a, alphabet, map, nomatch);
    let targets = successor_clusters(a, alphabet, map.pos_hash@, state);
    let base = cluster_offset(map, map.first_cluster(state) as int);
    let run = 512 * (map.cluster_run(state) as int);
    let directory = state_directory(a, alphabet, map, nomatch, state);
    lemma_volume_parts(a, alphabet, map, nomatch);
    lemma_volume_directory(a, alphabet, map, nomatch, index);
    lemma_state_directory_len(a, alphabet, map, nomatch, index);
    lemma_directory_entry(
        alphabet,
        targets,
        a.accepts(state),
        nomatch,
        (map.blocks + 2) as u32,
        letter,
    );
    assert(volume.subrange(base, base + run) == directory);
    assert(directory.len() == run);
    assert(0 <= base && base + run <= volume.len());
    lemma_subrange_of_subrange(volume, base, base + run, 32 * letter, 32 * letter + 32);
    lemma_short_name_injective(alphabet[letter], alphabet[letter]);
    lemma_dir_entry_fields(short_name(alphabet[letter]), ATTR_DIRECTORY, targets[letter]);
}

/// The data area has the clusters that make a volume FAT32: 65525 at least.
pub proof fn lemma_data_clusters_minimum(map: StateFatMap)
    ensures
        data_clusters(map) >= 65525,
        data_clusters(map) > map.blocks,
{
}

/// In whatever order the states stand behind the start state, the layout
/// lists as many states as are reachable, begins the directory of the start
/// state at cluster 2, gives no cluster to two directories, and leaves the
/// data area the clusters that make the volume FAT32.
pub proof fn lemma_layout_invariants(
    a: Automaton,
    alphabet: Seq<u8>,
    map: StateFatMap,
    nomatch: bool,
)
    requires
        map.lays_out(a, alphabet, nomatch),
    ensures
        map.order_list@.len() == Set::new(|state: usize| a.reachable(alphabet, state)).len(),
        map.first_cluster(a.start()) == 2,
        forall|i: int, j: int|
            #![trigger map.order_list@[i], map.order_list@[j]]
            0 <= i < j < map.order_list@.len() ==> map.first_cluster(map.order_list@[i])
                + map.cluster_run(map.order_list@[i]) <= map.first_cluster(map.order_list@[j]),
        forall|i: int|
            0 <= i < map.order_list@.len() ==> 2 <= map.first_cluster(#[trigger] map.order_list@[i])
                && map.first_cluster(map.order_list@[i]) + map.cluster_run(map.order_list@[i]) <= 2
                + map.blocks,
        data_clusters(map) >= 65525,
{
    lemma_order_counts_reachable(a, alphabet, map.order_list@);
    lemma_first_state_at_root(map);
    assert forall|i: int, j: int|
        #![trigger map.order_list@[i], map.order_list@[j]]
        0 <= i < j < map.order_list@.len() implies map.first_cluster(map.order_list@[i])
        + map.cluster_run(map.order_list@[i]) <= map.first_cluster(map.order_list@[j]) by {
        lemma_runs_disjoint(map, i, j);
    }
    assert forall|i: int| 0 <= i < map.order_list@.len() implies 2 <= map.first_cluster(
        #[trigger] map.order_list@[i],
    ) && map.first_cluster(map.order_list@[i]) + map.cluster_run(map.order_list@[i]) <= 2
        + map.blocks by {
        if i + 1 < map.order_list@.len() {
            lemma_runs_disjoint(map, i, i + 1);
        }
        if i > 0 {
            lemma_runs_disjoint(map, 0, i);
        }
        lemma_last_run_ends(map, i);
    }
}

/// No run passes the end of the directories.
proof fn lemma_last_run_ends(map: StateFatMap, i: int)
    requires
        map.wf(),
        0 <= i < map.order_list@.len(),
    ensures
        map.first_cluster(map.order_list@[i]) + map.cluster_run(map.order_list@[i]) <= 2
            + map.blocks,
        map.first_cluster(map.order_list@[i]) >= 2,
{
    crate::layout::lemma_clusters_before_grows(
        map.order_list@,
        map.pos_hash@,
        i + 1,
        map.order_list@.len() as int,
    );
    assert(map.first_cluster(map.order_list@[i]) == 2 + clusters_before(
        map.order_list@,
        map.pos_hash@,
        i,
    ));
}

} // verus!

//! How a reader of FAT32 finds its way through a volume, and where it ends
//! up in the volumes built here.

use crate::alphabet::{is_name_alphabet, is_name_letter};
use crate::automaton::{
    lemma_no_letters_reach_start_only, lemma_run_stays_inside, lemma_start_reachable, word_over,
    Automaton,
};
use crate::fat32::{
    blocks_for, dir_entry, entry_attributes, entry_cluster, entry_name, fat_entries, fat_sectors,
    header_image, le_words, lemma_block_padded_len, lemma_dir_entry_fields, lemma_fat_chain,
    lemma_fat_chains_len, lemma_header_fields, lemma_header_geometry, lemma_le_words_entry,
    lemma_short_name_injective, short_name, total_sectors, u32_from_le, zeros, ATTR_DIRECTORY,
    ATTR_FILE, FAT32_EOC, MATCH_NAME, NOMATCH_NAME,
};
use crate::geometry::{
    cluster_offset, data_offset, lemma_directory_entry, lemma_state_directory_len,
    lemma_subrange_of_left, lemma_subrange_of_subrange,
    lemma_volume_directory, lemma_volume_parts,
};
use crate::layout::{dir_size, StateFatMap};
use crate::volume::{
    data_clusters, directory_image, directory_listing, has_empty_directory, lemma_directory_len,
    lemma_records_len, marker_entry, padding, records, state_directory, successor_clusters,
    volume_image,
};
use vstd::prelude::*;

verus! {

/// The number that two bytes encode, low byte first.
pub open spec fn u16_from_le(bytes: Seq<u8>) -> int {
    bytes[0] + 256 * bytes[1]
}

/// The bytes of a sector, as the boot sector announces them.
pub open spec fn sector_size(volume: Seq<u8>) -> int {
    u16_from_le(volume.subrange(11, 13))
}

/// The bytes of a cluster.
pub open spec fn cluster_size(volume: Seq<u8>) -> int {
    sector_size(volume) * volume[13]
}

/// The byte at which the allocation table begins: behind the reserved
/// sectors.
pub open spec fn table_start(volume: Seq<u8>) -> int {
    u16_from_le(volume.subrange(14, 16)) * sector_size(volume)
}

/// The byte at which the data area begins: behind the allocation tables.
pub open spec fn data_start(volume: Seq<u8>) -> int {
    table_start(volume) + volume[16] * u32_from_le(volume.subrange(36, 40)) * sector_size(volume)
}

/// The cluster at which the root directory begins.
pub open spec fn root_cluster(volume: Seq<u8>) -> int {
    u32_from_le(volume.subrange(44, 48))
}

/// The content of a cluster.
pub open spec fn cluster_bytes(volume: Seq<u8>, cluster: int) -> Seq<u8> {
    volume.subrange(
        data_start(volume) + (cluster - 2) * cluster_size(volume),
        data_start(volume) + (cluster - 1) * cluster_size(volume),
    )
}

/// The entry of a cluster in the allocation table: its lower 28 bits.
pub open spec fn table_entry(volume: Seq<u8>, cluster: int) -> int {
    u32_from_le(
        volume.subrange(table_start(volume) + 4 * cluster, table_start(volume) + 4 * cluster + 4),
    ) % 0x1000_0000
}

/// Whether a table entry ends a chain.
pub open spec fn ends_chain(entry: int) -> bool {
    entry >= 0x0fff_fff8
}

/// The content of the chain that begins at `cluster`, as far as `limit`
/// clusters.
pub open spec fn chain_bytes(volume: Seq<u8>, cluster: int, limit: nat) -> Seq<u8>
    decreases limit,
{
    if limit == 0 {
        Seq::empty()
    } else if ends_chain(table_entry(volume, cluster)) {
        cluster_bytes(volume, cluster)
    } else {
        cluster_bytes(volume, cluster) + chain_bytes(
            volume,
            table_entry(volume, cluster),
            (limit - 1) as nat,
        )
    }
}

/// The first entry called `name` among the entries of a directory from
/// `index` on. An entry that begins with a zero byte ends the directory,
/// and one that begins with `0xe5` is unused.
pub open spec fn lookup(directory: Seq<u8>, name: Seq<u8>, index: int) -> Option<Seq<u8>>
    decreases directory.len() - 32 * index,
{
    if index < 0 || 32 * index + 32 > directory.len() {
        None
    } else {
        let entry = directory.subrange(32 * index, 32 * index + 32);
        if entry[0] == 0x00 {
            None
        } else if entry[0] != 0xe5 && entry_name(entry) == name {
            Some(entry)
        } else {
            lookup(directory, name, index + 1)
        }
    }
}

/// The cluster at which the subdirectory for `letter` begins, in the
/// directory that begins at `cluster`.
pub open spec fn open_subdirectory(volume: Seq<u8>, cluster: int, letter: u8, limit: nat) -> Option<
    int,
> {
    match lookup(chain_bytes(volume, cluster, limit), short_name(letter), 0) {
        Some(entry) => if entry_attributes(entry) / 16 % 2 == 1 {
            Some(entry_cluster(entry))
        } else {
            None
        },
        None => None,
    }
}

/// The cluster at which the directory begins in which the path that spells
/// `word` ends, from the root directory on.
pub open spec fn walk(volume: Seq<u8>, word: Seq<u8>, limit: nat) -> Option<int>
    decreases word.len(),
{
    if word.len() == 0 {
        Some(root_cluster(volume))
    } else {
        match walk(volume, word.drop_last(), limit) {
            Some(cluster) => open_subdirectory(volume, cluster, word.last(), limit),
            None => None,
        }
    }
}

/// Whether the directory that begins at `cluster` holds an entry called
/// `MATCH`.
pub open spec fn holds_match(volume: Seq<u8>, cluster: int, limit: nat) -> bool {
    lookup(chain_bytes(volume, cluster, limit), MATCH_NAME@, 0) is Some
}

/// Whether a reader can tell all chains of the volume from the marks that
/// end a chain: every cluster number lies below them.
pub open spec fn clusters_addressable(map: StateFatMap) -> bool {
    2 + map.blocks <= 0x0fff_fff7
}

/// A reader finds the sizes that the volume was built with.
pub proof fn lemma_reader_geometry(a: Automaton, alphabet: Seq<u8>, map: StateFatMap, nomatch: bool)
    requires
        map.lays_out(a, alphabet, nomatch),
        total_sectors(data_clusters(map)) <= u32::MAX,
    ensures
        sector_size(volume_image(a, alphabet, map, nomatch)) == 512,
        cluster_size(volume_image(a, alphabet, map, nomatch)) == 512,
        table_start(volume_image(a, alphabet, map, nomatch)) == 4096,
        data_start(volume_image(a, alphabet, map, nomatch)) == data_offset(map),
        root_cluster(volume_image(a, alphabet, map, nomatch)) == 2,
{
    let volume = volume_image(a, alphabet, map, nomatch);
    let header = header_image(data_clusters(map));
    lemma_volume_parts(a, alphabet, map, nomatch);
    lemma_header_geometry(data_clusters(map));
    lemma_header_fields(data_clusters(map));
    assert(volume.subrange(0, 4096) == header);
    assert forall|i: int| 0 <= i < 4096 implies volume[i] == header[i] by {
        assert(volume.subrange(0, 4096)[i] == volume[i]);
    }
    assert(volume.subrange(11, 13)[0] == volume[11]);
    assert(volume.subrange(11, 13)[1] == volume[12]);
    assert(volume.subrange(14, 16)[0] == volume[14]);
    assert(volume.subrange(14, 16)[1] == volume[15]);
    assert(volume.subrange(36, 40) =~= header.subrange(36, 40));
    assert(volume.subrange(44, 48)[0] == volume[44]);
    assert(volume.subrange(44, 48)[1] == volume[45]);
    assert(volume.subrange(44, 48)[2] == volume[46]);
    assert(volume.subrange(44, 48)[3] == volume[47]);
    assert(sector_size(volume) == 512);
    assert(volume[13] == 1);
    assert(volume[16] == 1);
    assert(u32_from_le(volume.subrange(36, 40)) == fat_sectors(data_clusters(map)));
}

/// A reader finds in the table the entries that were written.
pub proof fn lemma_reader_table(
    a: Automaton,
    alphabet: Seq<u8>,
    map: StateFatMap,
    nomatch: bool,
    cluster: int,
)
    requires
        map.lays_out(a, alphabet, nomatch),
        total_sectors(data_clusters(map)) <= u32::MAX,
        0 <= cluster < 2 + data_clusters(map),
    ensures
        table_entry(volume_image(a, alphabet, map, nomatch), cluster) == fat_entries(
            map.order_list@,
            map.pos_hash@,
            padding(map.blocks as nat),
        )[cluster] % 0x1000_0000,
{
    let volume = volume_image(a, alphabet, map, nomatch);
    let entries = fat_entries(map.order_list@, map.pos_hash@, padding(map.blocks as nat));
    let words = le_words(entries);
    let filler = zeros(((512 - words.len() % 512) % 512) as nat);
    lemma_reader_geometry(a, alphabet, map, nomatch);
    lemma_volume_parts(a, alphabet, map, nomatch);
    lemma_fat_chains_len(map.order_list@, map.pos_hash@, map.order_list@.len() as int);
    assert(entries.len() == 2 + data_clusters(map));
    lemma_le_words_entry(entries, cluster);
    lemma_block_padded_len(words);
    let table = volume.subrange(4096, data_offset(map));
    assert(table == words + filler);
    lemma_subrange_of_left(words, filler, 4 * cluster, 4 * cluster + 4);
    lemma_subrange_of_subrange(volume, 4096, data_offset(map), 4 * cluster, 4 * cluster + 4);
}

/// A reader finds in each cluster of the run of a state the part of its
/// directory that belongs there.
pub proof fn lemma_reader_cluster(
    a: Automaton,
    alphabet: Seq<u8>,
    map: StateFatMap,
    nomatch: bool,
    index: int,
    k: int,
)
    requires
        map.lays_out(a, alphabet, nomatch),
        total_sectors(data_clusters(map)) <= u32::MAX,
        0 <= index < map.order_list@.len(),
        0 <= k < map.cluster_run(map.order_list@[index]),
    ensures
        state_directory(a, alphabet, map, nomatch, map.order_list@[index]).len() == 512
            * map.cluster_run(map.order_list@[index]),
        cluster_bytes(
            volume_image(a, alphabet, map, nomatch),
            map.first_cluster(map.order_list@[index]) + k,
        ) == state_directory(a, alphabet, map, nomatch, map.order_list@[index]).subrange(
            512 * k,
            512 * k + 512,
        ),
{
    let volume = volume_image(a, alphabet, map, nomatch);
    let state = map.order_list@[index];
    let base = cluster_offset(map, map.first_cluster(state) as int);
    let run = 512 * (map.cluster_run(state) as int);
    lemma_reader_geometry(a, alphabet, map, nomatch);
    lemma_volume_parts(a, alphabet, map, nomatch);
    lemma_volume_directory(a, alphabet, map, nomatch, index);
    lemma_state_directory_len(a, alphabet, map, nomatch, index);
    lemma_subrange_of_subrange(volume, base, base + run, 512 * k, 512 * k + 512);
    assert(data_start(volume) + (map.first_cluster(state) + k - 2) * 512 == base + 512 * k);
    assert(data_start(volume) + (map.first_cluster(state) + k - 1) * 512 == base + 512 * k + 512);
}

/// A reader finds in the table, for each cluster of the run of a state, the
/// next cluster of the run, or behind the last the mark that ends a chain.
pub proof fn lemma_reader_next(
    a: Automaton,
    alphabet: Seq<u8>,
    map: StateFatMap,
    nomatch: bool,
    index: int,
    k: int,
)
    requires
        map.lays_out(a, alphabet, nomatch),
        total_sectors(data_clusters(map)) <= u32::MAX,
        clusters_addressable(map),
        0 <= index < map.order_list@.len(),
        0 <= k < map.cluster_run(map.order_list@[index]),
    ensures
        table_entry(
            volume_image(a, alphabet, map, nomatch),
            map.first_cluster(map.order_list@[index]) + k,
        ) == if k == map.cluster_run(map.order_list@[index]) - 1 {
            FAT32_EOC as int
        } else {
            map.first_cluster(map.order_list@[index]) + k + 1
        },
{
    let cluster = map.first_cluster(map.order_list@[index]) + k;
    let volume = volume_image(a, alphabet, map, nomatch);
    let entries = fat_entries(map.order_list@, map.pos_hash@, padding(map.blocks as nat));
    let last = k == map.cluster_run(map.order_list@[index]) - 1;
    lemma_fat_chain(map, padding(map.blocks as nat), index, k);
    assert(0 <= cluster < 2 + map.blocks);
    assert(entries[cluster] == if last {
        FAT32_EOC as int
    } else {
        cluster + 1
    });
    assert(table_entry(volume, cluster) == entries[cluster] % 0x1000_0000) by {
        lemma_reader_table(a, alphabet, map, nomatch, cluster);
    }
    lemma_low_bits(entries[cluster], cluster, last);
}

/// The entries of a chain have no more than 28 bits.
proof fn lemma_low_bits(entry: u32, cluster: int, last: bool)
    requires
        0 <= cluster + 1 < 0x0fff_fff8,
        entry == if last {
            FAT32_EOC as int
        } else {
            cluster + 1
        },
    ensures
        entry % 0x1000_0000 == entry,
{
}

/// A reader that follows the chain from a cluster of the run of a state
/// finds the rest of the directory of that state.
pub proof fn lemma_reader_chain(
    a: Automaton,
    alphabet: Seq<u8>,
    map: StateFatMap,
    nomatch: bool,
    index: int,
    k: int,
    limit: nat,
)
    requires
        map.lays_out(a, alphabet, nomatch),
        total_sectors(data_clusters(map)) <= u32::MAX,
        clusters_addressable(map),
        0 <= index < map.order_list@.len(),
        0 <= k < map.cluster_run(map.order_list@[index]),
        limit >= map.cluster_run(map.order_list@[index]) - k,
    ensures
        chain_bytes(
            volume_image(a, alphabet, map, nomatch),
            map.first_cluster(map.order_list@[index]) + k,
            limit,
        ) == state_directory(a, alphabet, map, nomatch, map.order_list@[index]).subrange(
            512 * k,
            512 * (map.cluster_run(map.order_list@[index]) as int),
        ),
    decreases map.cluster_run(map.order_list@[index]) - k,
{
    let volume = volume_image(a, alphabet, map, nomatch);
    let first = map.first_cluster(map.order_list@[index]) as int;
    let run = map.cluster_run(map.order_list@[index]) as int;
    let directory = state_directory(a, alphabet, map, nomatch, map.order_list@[index]);
    lemma_reader_next(a, alphabet, map, nomatch, index, k);
    lemma_reader_cluster(a, alphabet, map, nomatch, index, k);
    if k < run - 1 {
        lemma_reader_chain(a, alphabet, map, nomatch, index, k + 1, (limit - 1) as nat);
    }
    lemma_fat_chain(map, padding(map.blocks as nat), index, k);
    lemma_chain_step(volume, directory, first + k, k, run, limit);
}

/// One step of following a chain whose clusters lie one behind the other.
proof fn lemma_chain_step(
    volume: Seq<u8>,
    directory: Seq<u8>,
    cluster: int,
    k: int,
    run: int,
    limit: nat,
)
    requires
        0 <= k < run,
        limit >= run - k,
        directory.len() == 512 * run,
        cluster_bytes(volume, cluster) == directory.subrange(512 * k, 512 * k + 512),
        table_entry(volume, cluster) == if k == run - 1 {
            FAT32_EOC as int
        } else {
            cluster + 1
        },
        cluster + 1 < 0x0fff_fff8,
        k < run - 1 ==> chain_bytes(volume, cluster + 1, (limit - 1) as nat) == directory.subrange(
            512 * (k + 1),
            512 * run,
        ),
    ensures
        chain_bytes(volume, cluster, limit) == directory.subrange(512 * k, 512 * run),
{
    if k == run - 1 {
        assert(directory.subrange(512 * k, 512 * k + 512) =~= directory.subrange(
            512 * k,
            512 * run,
        ));
    } else {
        assert(directory.subrange(512 * k, 512 * k + 512) + directory.subrange(
            512 * (k + 1),
            512 * run,
        ) =~= directory.subrange(512 * k, 512 * run));
    }
}

/// The first place at which a letter stands in an alphabet that holds it.
pub proof fn lemma_first_occurrence(alphabet: Seq<u8>, letter: u8) -> (first: int)
    requires
        alphabet.contains(letter),
    ensures
        0 <= first < alphabet.len(),
        alphabet[first] == letter,
        forall|j: int| 0 <= j < first ==> alphabet[j] != letter,
    decreases alphabet.len(),
{
    let at = choose|i: int| 0 <= i < alphabet.len() && alphabet[i] == letter;
    if alphabet[0] == letter {
        0
    } else {
        let rest = alphabet.subrange(1, alphabet.len() as int);
        assert(rest[at - 1] == letter);
        let found = lemma_first_occurrence(rest, letter);
        assert(rest[found] == alphabet[found + 1]);
        assert forall|j: int| 0 <= j < found + 1 implies alphabet[j] != letter by {
            if j > 0 {
                assert(rest[j - 1] == alphabet[j]);
            }
        }
        found + 1
    }
}

/// The entry of a letter begins with a byte that neither ends the directory
/// nor marks the entry as unused.
proof fn lemma_letter_entry(
    alphabet: Seq<u8>,
    targets: Seq<u32>,
    accepting: bool,
    nomatch: bool,
    marker_cluster: u32,
    index: int,
)
    requires
        is_name_alphabet(alphabet),
        0 <= index < alphabet.len(),
    ensures
        ({
            let directory = directory_image(alphabet, targets, accepting, nomatch, marker_cluster);
            let entry = directory.subrange(32 * index, 32 * index + 32);
            &&& 32 * index + 32 <= directory.len()
            &&& entry == dir_entry(short_name(alphabet[index]), ATTR_DIRECTORY, targets[index])
            &&& entry[0] != 0x00
            &&& entry[0] != 0xe5
            &&& entry_name(entry) == short_name(alphabet[index])
            &&& entry_attributes(entry) == ATTR_DIRECTORY
            &&& entry_cluster(entry) == targets[index]
        }),
{
    let name = short_name(alphabet[index]);
    let entry = dir_entry(name, ATTR_DIRECTORY, targets[index]);
    lemma_directory_entry(alphabet, targets, accepting, nomatch, marker_cluster, index);
    lemma_short_name_injective(alphabet[index], alphabet[index]);
    lemma_dir_entry_fields(name, ATTR_DIRECTORY, targets[index]);
    assert(is_name_letter(alphabet[index]));
    assert(entry[0] == name[0]);
    assert(name[0] == if alphabet[index] == 0x20 {
        0x53u8
    } else {
        alphabet[index]
    });
}

/// A reader that looks for the subdirectory of a letter finds the first
/// entry that was written for that letter.
pub proof fn lemma_lookup_letter(
    alphabet: Seq<u8>,
    targets: Seq<u32>,
    accepting: bool,
    nomatch: bool,
    marker_cluster: u32,
    first: int,
    from: int,
)
    requires
        is_name_alphabet(alphabet),
        0 <= from <= first < alphabet.len(),
        forall|j: int| 0 <= j < first ==> alphabet[j] != alphabet[first],
    ensures
        lookup(
            directory_image(alphabet, targets, accepting, nomatch, marker_cluster),
            short_name(alphabet[first]),
            from,
        ) == Some(dir_entry(short_name(alphabet[first]), ATTR_DIRECTORY, targets[first])),
    decreases first - from,
{
    lemma_letter_entry(alphabet, targets, accepting, nomatch, marker_cluster, from);
    if from < first {
        lemma_short_name_injective(alphabet[from], alphabet[first]);
        lemma_lookup_letter(alphabet, targets, accepting, nomatch, marker_cluster, first, from + 1);
    }
}

/// What stands in a directory behind the entries of the letters: the
/// marker, where there is one, and zeros behind it.
proof fn lemma_directory_tail(
    alphabet: Seq<u8>,
    targets: Seq<u32>,
    accepting: bool,
    nomatch: bool,
    marker_cluster: u32,
)
    ensures
        ({
            let directory = directory_image(alphabet, targets, accepting, nomatch, marker_cluster);
            let letters = alphabet.len() as int;
            let marker = marker_entry(accepting, nomatch, marker_cluster);
            &&& directory.len() >= 32 * letters + marker.len()
            &&& marker.len() == if accepting || nomatch {
                32int
            } else {
                0int
            }
            &&& directory.subrange(32 * letters, 32 * letters + marker.len()) == marker
            &&& forall|i: int|
                32 * letters + marker.len() <= i < directory.len() ==> directory[i] == 0
        }),
{
    let entries = records(alphabet, targets, alphabet.len() as int);
    let marker = marker_entry(accepting, nomatch, marker_cluster);
    let listing = directory_listing(alphabet, targets, accepting, nomatch, marker_cluster);
    let directory = directory_image(alphabet, targets, accepting, nomatch, marker_cluster);
    let letters = alphabet.len() as int;
    lemma_records_len(alphabet, targets, letters);
    lemma_dir_entry_fields(MATCH_NAME@, ATTR_FILE, marker_cluster);
    lemma_dir_entry_fields(NOMATCH_NAME@, ATTR_FILE, marker_cluster);
    lemma_directory_len(alphabet, targets, accepting, nomatch, marker_cluster);
    assert(directory.subrange(32 * letters, 32 * letters + marker.len()) =~= marker);
}

/// A reader finds a file called `MATCH` in a directory exactly where the
/// directory was written for an accepting state.
pub proof fn lemma_lookup_marker(
    alphabet: Seq<u8>,
    targets: Seq<u32>,
    accepting: bool,
    nomatch: bool,
    marker_cluster: u32,
    from: int,
)
    requires
        is_name_alphabet(alphabet),
        0 <= from <= alphabet.len(),
    ensures
        lookup(
            directory_image(alphabet, targets, accepting, nomatch, marker_cluster),
            MATCH_NAME@,
            from,
        ) is Some <==> accepting,
    decreases alphabet.len() - from,
{
    let directory = directory_image(alphabet, targets, accepting, nomatch, marker_cluster);
    let letters = alphabet.len() as int;
    if from < letters {
        lemma_letter_entry(alphabet, targets, accepting, nomatch, marker_cluster, from);
        lemma_short_name_injective(alphabet[from], alphabet[from]);
        lemma_lookup_marker(alphabet, targets, accepting, nomatch, marker_cluster, from + 1);
    } else {
        lemma_directory_tail(alphabet, targets, accepting, nomatch, marker_cluster);
        let marker = marker_entry(accepting, nomatch, marker_cluster);
        if accepting {
            lemma_dir_entry_fields(MATCH_NAME@, ATTR_FILE, marker_cluster);
            assert(marker[0] == MATCH_NAME@[0]);
        } else if nomatch {
            lemma_dir_entry_fields(NOMATCH_NAME@, ATTR_FILE, marker_cluster);
            assert(marker[0] == NOMATCH_NAME@[0]);
            assert(entry_name(marker)[0] == NOMATCH_NAME@[0]);
            assert(MATCH_NAME@[0] != NOMATCH_NAME@[0]);
            if 32 * (letters + 1) + 32 <= directory.len() {
                assert(directory.subrange(32 * (letters + 1), 32 * (letters + 1) + 32)[0]
                    == directory[32 * (letters + 1)]);
            }
            assert(lookup(directory, MATCH_NAME@, letters + 1) is None);
        } else {
            if 32 * letters + 32 <= directory.len() {
                assert(directory.subrange(32 * letters, 32 * letters + 32)[0] == directory[32
                    * letters]);
            }
        }
    }
}

/// Every directory of a volume without empty directories has a cluster,
/// and none has more than entries for all letters and a marker fill.
pub proof fn lemma_run_bounds(
    a: Automaton,
    alphabet: Seq<u8>,
    map: StateFatMap,
    nomatch: bool,
    index: int,
)
    requires
        map.lays_out(a, alphabet, nomatch),
        !has_empty_directory(a, alphabet, nomatch),
        0 <= index < map.order_list@.len(),
    ensures
        1 <= map.cluster_run(map.order_list@[index]) <= blocks_for(32 * (alphabet.len() + 1)),
{
    let state = map.order_list@[index];
    assert(map.dir_bytes(state) == dir_size(alphabet.len(), a.accepts(state), nomatch));
    if alphabet.len() == 0 {
        assert(map.order_list@.contains(state));
        lemma_no_letters_reach_start_only(a, alphabet, state);
    }
}

/// A reader that opens the directory of a listed state reads the directory
/// that was written for it.
pub proof fn lemma_reader_directory(
    a: Automaton,
    alphabet: Seq<u8>,
    map: StateFatMap,
    nomatch: bool,
    index: int,
    limit: nat,
)
    requires
        map.lays_out(a, alphabet, nomatch),
        total_sectors(data_clusters(map)) <= u32::MAX,
        clusters_addressable(map),
        !has_empty_directory(a, alphabet, nomatch),
        0 <= index < map.order_list@.len(),
        limit >= blocks_for(32 * (alphabet.len() + 1)),
    ensures
        chain_bytes(
            volume_image(a, alphabet, map, nomatch),
            map.first_cluster(map.order_list@[index]) as int,
            limit,
        ) == state_directory(a, alphabet, map, nomatch, map.order_list@[index]),
{
    let directory = state_directory(a, alphabet, map, nomatch, map.order_list@[index]);
    lemma_run_bounds(a, alphabet, map, nomatch, index);
    lemma_reader_chain(a, alphabet, map, nomatch, index, 0, limit);
    lemma_state_directory_len(a, alphabet, map, nomatch, index);
    assert(directory.subrange(0, directory.len() as int) =~= directory);
}

/// The state that a word over the alphabet reaches is listed.
pub proof fn lemma_run_is_listed(
    a: Automaton,
    alphabet: Seq<u8>,
    map: StateFatMap,
    nomatch: bool,
    word: Seq<u8>,
) -> (index: int)
    requires
        map.lays_out(a, alphabet, nomatch),
        word_over(word, alphabet),
    ensures
        0 <= index < map.order_list@.len(),
        map.order_list@[index] == a.run(a.start(), word),
{
    let state = a.run(a.start(), word);
    lemma_start_reachable(a, alphabet);
    lemma_run_stays_inside(a, alphabet, a.start(), word);
    assert(map.order_list@.contains(state));
    choose|i: int| 0 <= i < map.order_list@.len() && map.order_list@[i] == state
}

/// A reader finds a file called `MATCH` in the directory of a listed state
/// exactly if the state accepts.
pub proof fn lemma_match_marks_acceptance(
    a: Automaton,
    alphabet: Seq<u8>,
    map: StateFatMap,
    nomatch: bool,
    index: int,
    limit: nat,
)
    requires
        map.lays_out(a, alphabet, nomatch),
        total_sectors(data_clusters(map)) <= u32::MAX,
        !has_empty_directory(a, alphabet, nomatch),
        clusters_addressable(map),
        is_name_alphabet(alphabet),
        0 <= index < map.order_list@.len(),
        limit >= blocks_for(32 * (alphabet.len() + 1)),
    ensures
        holds_match(
            volume_image(a, alphabet, map, nomatch),
            map.first_cluster(map.order_list@[index]) as int,
            limit,
        ) <==> a.accepts(map.order_list@[index]),
{
    let state = map.order_list@[index];
    lemma_reader_directory(a, alphabet, map, nomatch, index, limit);
    lemma_lookup_marker(
        alphabet,
        successor_clusters(a, alphabet, map.pos_hash@, state),
        a.accepts(state),
        nomatch,
        (map.blocks + 2) as u32,
        0,
    );
}

/// A reader that opens, in the directory of a listed state, the
/// subdirectory of a letter of the alphabet comes to the directory of the
/// successor of the state on that letter.
pub proof fn lemma_open_follows_next(
    a: Automaton,
    alphabet: Seq<u8>,
    map: StateFatMap,
    nomatch: bool,
    index: int,
    letter: u8,
    limit: nat,
)
    requires
        map.lays_out(a, alphabet, nomatch),
        total_sectors(data_clusters(map)) <= u32::MAX,
        !has_empty_directory(a, alphabet, nomatch),
        clusters_addressable(map),
        is_name_alphabet(alphabet),
        0 <= index < map.order_list@.len(),
        alphabet.contains(letter),
        limit >= blocks_for(32 * (alphabet.len() + 1)),
    ensures
        open_subdirectory(
            volume_image(a, alphabet, map, nomatch),
            map.first_cluster(map.order_list@[index]) as int,
            letter,
            limit,
        ) == Some(map.first_cluster(a.next(map.order_list@[index], letter)) as int),
{
    let state = map.order_list@[index];
    let targets = successor_clusters(a, alphabet, map.pos_hash@, state);
    lemma_reader_directory(a, alphabet, map, nomatch, index, limit);
    let first = lemma_directory_opens(
        alphabet,
        targets,
        a.accepts(state),
        nomatch,
        (map.blocks + 2) as u32,
        letter,
    );
    assert(targets[first] == map.pos_hash@[a.next(state, alphabet[first])].block);
}

/// In a directory, the entry that a reader finds for a letter of the
/// alphabet is a subdirectory that begins at the cluster given for the
/// first place at which the letter stands in the alphabet.
pub proof fn lemma_directory_opens(
    alphabet: Seq<u8>,
    targets: Seq<u32>,
    accepting: bool,
    nomatch: bool,
    marker_cluster: u32,
    letter: u8,
) -> (first: int)
    requires
        is_name_alphabet(alphabet),
        alphabet.contains(letter),
    ensures
        0 <= first < alphabet.len(),
        alphabet[first] == letter,
        lookup(
            directory_image(alphabet, targets, accepting, nomatch, marker_cluster),
            short_name(letter),
            0,
        ) matches Some(entry) && entry_attributes(entry) / 16 % 2 == 1 && entry_cluster(entry)
            == targets[first],
{
    let first = lemma_first_occurrence(alphabet, letter);
    lemma_lookup_letter(alphabet, targets, accepting, nomatch, marker_cluster, first, 0);
    lemma_short_name_injective(letter, letter);
    lemma_dir_entry_fields(short_name(letter), ATTR_DIRECTORY, targets[first]);
    first
}

/// The path that spells a word over the alphabet ends in the directory of
/// the state that the word reaches, and that directory holds a file called
/// `MATCH` exactly if the state accepts.
pub proof fn lemma_walk_follows_run(
    a: Automaton,
    alphabet: Seq<u8>,
    map: StateFatMap,
    nomatch: bool,
    word: Seq<u8>,
    limit: nat,
)
    requires
        map.lays_out(a, alphabet, nomatch),
        total_sectors(data_clusters(map)) <= u32::MAX,
        !has_empty_directory(a, alphabet, nomatch),
        clusters_addressable(map),
        is_name_alphabet(alphabet),
        word_over(word, alphabet),
        limit >= blocks_for(32 * (alphabet.len() + 1)),
    ensures
        walk(volume_image(a, alphabet, map, nomatch), word, limit) == Some(
            map.first_cluster(a.run(a.start(), word)) as int,
        ),
        holds_match(
            volume_image(a, alphabet, map, nomatch),
            map.first_cluster(a.run(a.start(), word)) as int,
            limit,
        ) <==> a.accepts(a.run(a.start(), word)),
    decreases word.len(),
{
    let index = lemma_run_is_listed(a, alphabet, map, nomatch, word);
    lemma_match_marks_acceptance(a, alphabet, map, nomatch, index, limit);
    if word.len() == 0 {
        lemma_reader_geometry(a, alphabet, map, nomatch);
        lemma_root_is_start(a, alphabet, map, nomatch);
    } else {
        let shorter = word.drop_last();
        lemma_shorter_word(word, alphabet);
        lemma_walk_follows_run(a, alphabet, map, nomatch, shorter, limit);
        let from = lemma_run_is_listed(a, alphabet, map, nomatch, shorter);
        lemma_open_follows_next(a, alphabet, map, nomatch, from, word.last(), limit);
    }
}

/// The directory of the start state begins at cluster 2.
pub proof fn lemma_root_is_start(a: Automaton, alphabet: Seq<u8>, map: StateFatMap, nomatch: bool)
    requires
        map.lays_out(a, alphabet, nomatch),
    ensures
        map.first_cluster(a.start()) == 2,
{
    crate::layout::lemma_first_state_at_root(map);
}

/// A word over the alphabet without its last letter is a word over the
/// alphabet, and the last letter is a letter of the alphabet.
proof fn lemma_shorter_word(word: Seq<u8>, alphabet: Seq<u8>)
    requires
        word_over(word, alphabet),
        word.len() > 0,
    ensures
        word_over(word.drop_last(), alphabet),
        alphabet.contains(word.last()),
{
    let shorter = word.drop_last();
    assert forall|i: int| 0 <= i < shorter.len() implies alphabet.contains(
        #[trigger] shorter[i],
    ) by {
        assert(shorter[i] == word[i]);
    }
    assert(alphabet.contains(word[word.len() - 1]));
}

} // verus!

//! The pieces of a FAT32 volume: little-endian fields, the reserved sectors,
//! and directory entries.

use crate::error::ImageError;
use crate::layout::{clusters_before, run_clusters, StateFatMap, StatePosInfo};
use vstd::prelude::*;

verus! {

broadcast use vstd::std_specs::hash::group_hash_axioms;

/// A cluster number, or a count of clusters or sectors.
pub type UFat = u32;

/// Bytes per sector. A cluster is one sector.
pub const BLOCK_SIZE: usize = 512;

/// The table entry that ends a cluster chain.
pub const FAT32_EOC: u32 = 0x0FFF_FFFF;

/// Sectors before the file allocation table: boot sector, FSINFO, four
/// unused sectors and the backup copies of the first two.
pub const RESERVED_SECTORS: u32 = 8;

/// The first 90 bytes of the boot sector, with both size fields zero.
pub const BOOT_SECTOR: [u8; 90] = [
    0xeb, 0xfe, 0x90,  // jump to self
    0x72, 0x65, 0x67, 0x65, 0x78, 0x20, 0x20, 0x20,  // vendor: "regex   "
    0x00, 0x02,  // 512 bytes per sector
    0x01,  // one sector per cluster
    0x08, 0x00,  // 8 reserved sectors
    0x01,  // one allocation table
    0x00, 0x00,  // no root entries outside the data area
    0x00, 0x00,  // 16-bit sector count unused
    0xf8,  // fixed disk
    0x00, 0x00,  // 16-bit table size unused
    0x01, 0x00,  // sectors per track
    0x01, 0x00,  // heads
    0x00, 0x00, 0x00, 0x00,  // hidden sectors
    0x00, 0x00, 0x00, 0x00,  // total sectors, patched
    0x00, 0x00, 0x00, 0x00,  // sectors per table, patched
    0x00, 0x00,  // mirroring flags
    0x00, 0x00,  // version 0
    0x02, 0x00, 0x00, 0x00,  // root directory starts at cluster 2
    0x01, 0x00,  // FSINFO in sector 1
    0x06, 0x00,  // backup boot sector in sector 6
    0x00, 0x00, 0x00, 0x00, 0x00, 0x00, 0x00, 0x00, 0x00, 0x00, 0x00, 0x00,  // reserved
    0x80,  // drive number
    0x00,  // reserved
    0x00,  // no extended signature
    0x00, 0x00, 0x00, 0x00,  // no serial number
    0x00, 0x00, 0x00, 0x00, 0x00, 0x00, 0x00, 0x00, 0x00, 0x00, 0x00,  // no label
    0x46, 0x41, 0x54, 0x33, 0x32, 0x20, 0x20, 0x20,  // "FAT32   "
];

/// Offset of the total sector count in the boot sector.
pub const BOOT_SECTOR_TOTAL_SEC_32: usize = 32;

/// Offset of the table size, in sectors, in the boot sector.
pub const BOOT_SECTOR_FAT_SZ_32: usize = 36;

/// The four bytes that open the FSINFO sector: "RRaA".
pub const FSINFO_HEAD: [u8; 4] = [0x52, 0x52, 0x61, 0x41];

/// The last 28 bytes of the FSINFO sector.
pub const FSINFO_TAIL: [u8; 28] = [
    0x72, 0x72, 0x41, 0x61,  // "rrAa"
    0x00, 0x00, 0x00, 0x00,  // no free cluster
    0xff, 0xff, 0xff, 0xff,  // no hint where a free cluster is
    0x00, 0x00, 0x00, 0x00, 0x00, 0x00, 0x00, 0x00, 0x00, 0x00, 0x00, 0x00,  // reserved
    0x00, 0x00, 0x55, 0xaa,  // sector signature
];

/// The name of the file that marks the directory of an accepting state.
pub const MATCH_NAME: [u8; 11] = [0x4d, 0x41, 0x54, 0x43, 0x48, 0x20, 0x20, 0x20, 0x20, 0x20, 0x20];

/// The name of the file that marks the directory of a rejecting state.
pub const NOMATCH_NAME: [u8; 11] = [
    0x4e, 0x4f, 0x4d, 0x41, 0x54, 0x43, 0x48, 0x20, 0x20, 0x20, 0x20,
];

/// The name that stands for the letter space, which cannot begin a name.
pub const SPACE_NAME: [u8; 11] = [0x53, 0x50, 0x41, 0x43, 0x45, 0x20, 0x20, 0x20, 0x20, 0x20, 0x20];

/// `count` zero bytes.
pub open spec fn zeros(count: nat) -> Seq<u8> {
    Seq::new(count, |i: int| 0u8)
}

/// The two bytes of `value`, low byte first.
pub open spec fn u16_le(value: u16) -> Seq<u8> {
    seq![(value % 256) as u8, (value / 256) as u8]
}

/// The four bytes of `value`, lowest byte first.
pub open spec fn u32_le(value: u32) -> Seq<u8> {
    seq![
        (value % 256) as u8,
        (value / 256 % 256) as u8,
        (value / 65536 % 256) as u8,
        (value / 16777216) as u8,
    ]
}

/// The number that four bytes encode, lowest byte first.
pub open spec fn u32_from_le(bytes: Seq<u8>) -> int {
    bytes[0] + 256 * bytes[1] + 65536 * bytes[2] + 16777216 * bytes[3]
}

/// Decoding undoes encoding.
pub proof fn lemma_u32_le_round_trip(value: u32)
    ensures
        u32_le(value).len() == 4,
        u32_from_le(u32_le(value)) == value,
{
}

/// `bytes` with `patch` written over it from index `pos` on; what of the
/// patch would fall behind the end is dropped.
pub open spec fn overwrite(bytes: Seq<u8>, pos: int, patch: Seq<u8>) -> Seq<u8> {
    Seq::new(
        bytes.len(),
        |i: int|
            if pos <= i < pos + patch.len() {
                patch[i - pos]
            } else {
                bytes[i]
            },
    )
}

/// The number of sectors that hold `size` bytes.
pub open spec fn blocks_for(size: nat) -> nat {
    (size + 511) / 512
}

/// Appends `count` zero bytes.
pub fn append_zeros(bytes: &mut Vec<u8>, count: usize)
    ensures
        final(bytes)@ == old(bytes)@ + zeros(count as nat),
{
    let mut done: usize = 0;
    while done < count
        invariant
            done <= count,
            bytes@ == old(bytes)@ + zeros(done as nat),
        decreases count - done,
    {
        bytes.push(0);
        done += 1;
    }
}

/// Appends zero bytes up to the next multiple of the sector size.
pub fn pad_to_block(bytes: &mut Vec<u8>)
    ensures
        final(bytes)@ == block_padded(old(bytes)@),
{
    let rest: usize = bytes.len() % BLOCK_SIZE;
    if rest != 0 {
        append_zeros(bytes, BLOCK_SIZE - rest);
    } else {
        assert(bytes@ == bytes@ + zeros(0));
    }
}

/// `bytes` followed by as few zero bytes as make the length a multiple of
/// the sector size.
pub open spec fn block_padded(bytes: Seq<u8>) -> Seq<u8> {
    bytes + zeros(((512 - bytes.len() % 512) % 512) as nat)
}

/// A padded sequence fills whole sectors, as many as its bytes need.
pub proof fn lemma_block_padded_len(bytes: Seq<u8>)
    ensures
        block_padded(bytes).len() == 512 * blocks_for(bytes.len()),
        block_padded(bytes).len() % 512 == 0,
{
}

fn write_bytes_into(into: &mut [u8], pos: usize, patch: &[u8])
    ensures
        final(into)@ == overwrite(old(into)@, pos as int, patch@),
{
    let mut i: usize = 0;
    while i < patch.len() && pos < into.len() && i < into.len() - pos
        invariant
            i <= patch.len(),
            into@.len() == old(into)@.len(),
            forall|j: int|
                0 <= j < into@.len() ==> into@[j] == if pos <= j < pos + i {
                    patch@[j - pos]
                } else {
                    old(into)@[j]
                },
        decreases patch.len() - i,
    {
        into[pos + i] = patch[i];
        i += 1;
    }
    assert(into@ =~= overwrite(old(into)@, pos as int, patch@));
}

/// Writes the four bytes of `val`, lowest first, over `into` from index
/// `pos` on. Bytes that would fall behind the end are dropped.
pub fn write_u32_into(into: &mut [u8], pos: usize, val: u32)
    ensures
        final(into)@ == overwrite(old(into)@, pos as int, u32_le(val)),
{
    let bytes: [u8; 4] = [
        (val % 256) as u8,
        (val / 256 % 256) as u8,
        (val / 65536 % 256) as u8,
        (val / 16777216) as u8,
    ];
    assert(bytes@ =~= u32_le(val));
    write_bytes_into(into, pos, bytes.as_slice());
}

/// Writes the two bytes of `val`, low byte first, over `into` from index
/// `pos` on. Bytes that would fall behind the end are dropped.
pub fn write_u16_into(into: &mut [u8], pos: usize, val: u16)
    ensures
        final(into)@ == overwrite(old(into)@, pos as int, u16_le(val)),
{
    let bytes: [u8; 2] = [(val % 256) as u8, (val / 256) as u8];
    assert(bytes@ =~= u16_le(val));
    write_bytes_into(into, pos, bytes.as_slice());
}

/// The number of sectors that hold `size` bytes, cut to 32 bits.
pub fn len_to_block(size: usize) -> (blocks: UFat)
    ensures
        blocks == blocks_for(size as nat) % 0x1_0000_0000,
        blocks_for(size as nat) <= u32::MAX ==> blocks == blocks_for(size as nat),
{
    let whole: usize = size / BLOCK_SIZE;
    let count: usize = if size % BLOCK_SIZE != 0 {
        whole + 1
    } else {
        whole
    };
    ((count as u64) % 0x1_0000_0000u64) as u32
}

/// The sectors that a table with an entry for each of `clusters` data
/// clusters and the two reserved entries fills.
pub open spec fn fat_sectors(clusters: nat) -> nat {
    blocks_for((clusters + 2) * 4)
}

/// The sectors of a volume with `clusters` data clusters: the reserved
/// sectors, the table and the data area.
pub open spec fn total_sectors(clusters: nat) -> nat {
    clusters + 8 + fat_sectors(clusters)
}

/// The boot sector of a volume with `clusters` data clusters.
pub open spec fn boot_sector(clusters: nat) -> Seq<u8> {
    overwrite(
        overwrite(BOOT_SECTOR@, 36, u32_le(fat_sectors(clusters) as u32)),
        32,
        u32_le(total_sectors(clusters) as u32),
    ) + zeros(420) + seq![0x55u8, 0xaau8]
}

/// The FSINFO sector: no free clusters, and no hint where one is.
pub open spec fn fs_info() -> Seq<u8> {
    FSINFO_HEAD@ + zeros(480) + FSINFO_TAIL@
}

/// The eight reserved sectors of a volume with `clusters` data clusters:
/// boot sector, FSINFO, four zero sectors, and a copy of the first two.
pub open spec fn header_image(clusters: nat) -> Seq<u8> {
    boot_sector(clusters) + fs_info() + zeros(2048) + boot_sector(clusters) + fs_info()
}

/// The sectors of the table for `clusters` data clusters.
pub fn fat_size(clusters: UFat) -> (sectors: UFat)
    ensures
        sectors == fat_sectors(clusters as nat),
{
    (((clusters as u64 + 2) * 4 + 511) / 512) as u32
}

/// The reserved sectors of a volume whose data area has `n_state_sector`
/// clusters.
pub fn generate_header(n_state_sector: UFat) -> (header: Vec<u8>)
    requires
        total_sectors(n_state_sector as nat) <= u32::MAX,
    ensures
        header@ == header_image(n_state_sector as nat),
{
    let mut boot_and_fsinfo: Vec<u8> = Vec::new();
    boot_and_fsinfo.extend_from_slice(BOOT_SECTOR.as_slice());
    let fatsize: UFat = fat_size(n_state_sector);
    write_u32_into(&mut boot_and_fsinfo, BOOT_SECTOR_FAT_SZ_32, fatsize);
    write_u32_into(
        &mut boot_and_fsinfo,
        BOOT_SECTOR_TOTAL_SEC_32,
        n_state_sector + RESERVED_SECTORS + fatsize,
    );
    append_zeros(&mut boot_and_fsinfo, BLOCK_SIZE - 2 - 90);
    boot_and_fsinfo.push(0x55);
    boot_and_fsinfo.push(0xaa);
    assert(boot_and_fsinfo@ =~= boot_sector(n_state_sector as nat));

    boot_and_fsinfo.extend_from_slice(FSINFO_HEAD.as_slice());
    append_zeros(&mut boot_and_fsinfo, BLOCK_SIZE - 4 - 28);
    boot_and_fsinfo.extend_from_slice(FSINFO_TAIL.as_slice());
    assert(boot_and_fsinfo@ =~= boot_sector(n_state_sector as nat) + fs_info());

    let mut volume: Vec<u8> = Vec::new();
    volume.extend_from_slice(boot_and_fsinfo.as_slice());
    append_zeros(&mut volume, 4 * BLOCK_SIZE);
    volume.extend_from_slice(boot_and_fsinfo.as_slice());
    assert(volume@ =~= header_image(n_state_sector as nat));
    volume
}

/// The reserved sectors are eight, and the boot sector holds in its two size
/// fields the sectors of the table and of the whole volume.
pub proof fn lemma_header_fields(clusters: nat)
    requires
        total_sectors(clusters) <= u32::MAX,
    ensures
        header_image(clusters).len() == 8 * 512,
        u32_from_le(header_image(clusters).subrange(32, 36)) == total_sectors(clusters),
        u32_from_le(header_image(clusters).subrange(36, 40)) == fat_sectors(clusters),
        header_image(clusters)[510] == 0x55,
        header_image(clusters)[511] == 0xaa,
        header_image(clusters).subrange(3072, 4096) == header_image(clusters).subrange(0, 1024),
{
    let total = total_sectors(clusters) as u32;
    let table = fat_sectors(clusters) as u32;
    let boot = boot_sector(clusters);
    let header = header_image(clusters);
    assert(boot.len() == 512);
    assert(header.len() == 4096);
    assert(header.subrange(32, 36) =~= u32_le(total));
    assert(header.subrange(36, 40) =~= u32_le(table));
    lemma_u32_le_round_trip(total);
    lemma_u32_le_round_trip(table);
    assert(header.subrange(3072, 4096) =~= header.subrange(0, 1024));
}

/// The boot sector announces sectors of 512 bytes, clusters of one sector,
/// eight reserved sectors, one table, and the root directory at cluster 2.
pub proof fn lemma_header_geometry(clusters: nat)
    ensures
        header_image(clusters).len() == 4096,
        header_image(clusters)[11] == 0x00,
        header_image(clusters)[12] == 0x02,
        header_image(clusters)[13] == 0x01,
        header_image(clusters)[14] == 0x08,
        header_image(clusters)[15] == 0x00,
        header_image(clusters)[16] == 0x01,
        header_image(clusters)[44] == 0x02,
        header_image(clusters)[45] == 0x00,
        header_image(clusters)[46] == 0x00,
        header_image(clusters)[47] == 0x00,
{
    let boot = boot_sector(clusters);
    assert(boot.len() == 512);
    assert(boot[11] == BOOT_SECTOR@[11]);
    assert(boot[12] == BOOT_SECTOR@[12]);
    assert(boot[13] == BOOT_SECTOR@[13]);
    assert(boot[14] == BOOT_SECTOR@[14]);
    assert(boot[15] == BOOT_SECTOR@[15]);
    assert(boot[16] == BOOT_SECTOR@[16]);
    assert(boot[44] == BOOT_SECTOR@[44]);
    assert(boot[45] == BOOT_SECTOR@[45]);
    assert(boot[46] == BOOT_SECTOR@[46]);
    assert(boot[47] == BOOT_SECTOR@[47]);
}

/// An entry as the template has it: all zero but the write date, which is
/// 1980-01-01.
pub const ENTRY_TEMPLATE: [u8; 32] = [
    0x00, 0x00, 0x00, 0x00, 0x00, 0x00, 0x00, 0x00, 0x00, 0x00, 0x00,  // name
    0x00,  // attributes
    0x00,  // reserved
    0x00,  // creation time, tenths of a second
    0x00, 0x00,  // creation time
    0x00, 0x00,  // creation date
    0x00, 0x00,  // access date
    0x00, 0x00,  // first cluster, high word
    0x00, 0x00,  // write time
    0x21, 0x00,  // write date
    0x00, 0x00,  // first cluster, low word
    0x00, 0x00, 0x00, 0x00,  // size
];

/// Attributes of a subdirectory entry: read-only, directory.
pub const ATTR_DIRECTORY: u8 = 0x11;

/// Attributes of a file entry: none.
pub const ATTR_FILE: u8 = 0x00;

/// The 11 bytes under which the subdirectory for `letter` is entered: the
/// letter and ten spaces, or `SPACE` and six spaces for the letter space.
pub open spec fn short_name(letter: u8) -> Seq<u8> {
    if letter == 0x20 {
        SPACE_NAME@
    } else {
        seq![letter] + Seq::new(10, |i: int| 0x20u8)
    }
}

/// The upper 16 bits of a cluster number.
pub open spec fn cluster_high(target: u32) -> u16 {
    (target / 65536) as u16
}

/// The lower 16 bits of a cluster number.
pub open spec fn cluster_low(target: u32) -> u16 {
    (target % 65536) as u16
}

/// The 32 bytes of a directory entry of size zero with the given name and
/// attributes, whose content starts at cluster `target`.
pub open spec fn dir_entry(name: Seq<u8>, attributes: u8, target: u32) -> Seq<u8>
    recommends
        name.len() == 11,
{
    name + seq![attributes] + zeros(8) + u16_le(cluster_high(target)) + seq![
        0x00u8,
        0x00u8,
        0x21u8,
        0x00u8,
    ] + u16_le(cluster_low(target)) + zeros(4)
}

/// The name field of a directory entry.
pub open spec fn entry_name(entry: Seq<u8>) -> Seq<u8> {
    entry.subrange(0, 11)
}

/// The attribute byte of a directory entry.
pub open spec fn entry_attributes(entry: Seq<u8>) -> u8 {
    entry[11]
}

/// The first cluster that a directory entry names: the high word at offset
/// 20, the low word at offset 26.
pub open spec fn entry_cluster(entry: Seq<u8>) -> int {
    entry[26] + 256 * entry[27] + 65536 * entry[20] + 16777216 * entry[21]
}

/// The size field of a directory entry.
pub open spec fn entry_size(entry: Seq<u8>) -> int {
    u32_from_le(entry.subrange(28, 32))
}

/// What the fields of an entry hold.
pub proof fn lemma_dir_entry_fields(name: Seq<u8>, attributes: u8, target: u32)
    requires
        name.len() == 11,
    ensures
        dir_entry(name, attributes, target).len() == 32,
        entry_name(dir_entry(name, attributes, target)) == name,
        entry_attributes(dir_entry(name, attributes, target)) == attributes,
        entry_cluster(dir_entry(name, attributes, target)) == target,
        entry_size(dir_entry(name, attributes, target)) == 0,
{
    let entry = dir_entry(name, attributes, target);
    assert(entry_name(entry) =~= name);
    assert(entry[20] == u16_le(cluster_high(target))[0]);
    assert(entry[21] == u16_le(cluster_high(target))[1]);
    assert(entry[26] == u16_le(cluster_low(target))[0]);
    assert(entry[27] == u16_le(cluster_low(target))[1]);
    assert(entry.subrange(28, 32) =~= zeros(4));
}

/// Two letters with the same name are the same letter, and no letter has
/// the name of a marker file.
pub proof fn lemma_short_name_injective(first: u8, second: u8)
    ensures
        short_name(first).len() == 11,
        short_name(first) == short_name(second) ==> first == second,
        short_name(first) != MATCH_NAME@,
        short_name(first) != NOMATCH_NAME@,
{
    let a = short_name(first);
    let b = short_name(second);
    assert(a[0] == if first == 0x20 { 0x53u8 } else { first });
    assert(b[0] == if second == 0x20 { 0x53u8 } else { second });
    assert(a[1] == if first == 0x20 { 0x50u8 } else { 0x20u8 });
    assert(b[1] == if second == 0x20 { 0x50u8 } else { 0x20u8 });
    assert(MATCH_NAME@[1] == 0x41);
    assert(NOMATCH_NAME@[1] == 0x4f);
}

fn entry_with(name: &[u8], attributes: u8, target: UFat) -> (entry: Vec<u8>)
    requires
        name@.len() == 11,
    ensures
        entry@ == dir_entry(name@, attributes, target),
{
    let mut dir_entry: Vec<u8> = Vec::new();
    dir_entry.extend_from_slice(ENTRY_TEMPLATE.as_slice());
    write_bytes_into(&mut dir_entry, 0, name);
    dir_entry[11] = attributes;
    write_u16_into(&mut dir_entry, 20, (target / 65536) as u16);
    write_u16_into(&mut dir_entry, 26, (target % 65536) as u16);
    write_u32_into(&mut dir_entry, 28, 0);
    assert(dir_entry@ =~= self::dir_entry(name@, attributes, target));
    dir_entry
}

/// The entry of the subdirectory for `letter`, whose content starts at
/// cluster `target`.
pub fn generate_dir_short(letter: u8, target: UFat) -> (entry: Vec<u8>)
    ensures
        entry@ == dir_entry(short_name(letter), ATTR_DIRECTORY, target),
{
    let name_8_3: [u8; 11] = if letter == 0x20 {
        SPACE_NAME
    } else {
        [letter, 0x20, 0x20, 0x20, 0x20, 0x20, 0x20, 0x20, 0x20, 0x20, 0x20]
    };
    assert(name_8_3@ =~= short_name(letter));
    entry_with(name_8_3.as_slice(), ATTR_DIRECTORY, target)
}

/// The entry of an empty file called `name_8_3`, whose first-cluster field
/// is `target`.
pub fn generate_file(name_8_3: [u8; 11], target: UFat) -> (entry: Vec<u8>)
    ensures
        entry@ == dir_entry(name_8_3@, ATTR_FILE, target),
{
    entry_with(name_8_3.as_slice(), ATTR_FILE, target)
}

/// The table entries of a directory on `run` clusters from cluster `first`
/// on: each names the cluster behind it, and the last ends the chain.
pub open spec fn chain(first: nat, run: nat) -> Seq<u32> {
    Seq::new(
        run,
        |k: int|
            if k == run - 1 {
                FAT32_EOC
            } else {
                (first + k + 1) as u32
            },
    )
}

/// The table entries of the directories of the first `index` states.
pub open spec fn fat_chains(
    order: Seq<usize>,
    pos: Map<usize, StatePosInfo>,
    index: int,
) -> Seq<u32>
    decreases index,
{
    if index <= 0 {
        Seq::empty()
    } else {
        fat_chains(order, pos, index - 1) + chain(
            2 + clusters_before(order, pos, index - 1),
            run_clusters(pos, order[index - 1]),
        )
    }
}

/// The entries of the whole table: the two reserved ones, the chains of the
/// directories in the order of the list, and `pad` chains of one cluster.
pub open spec fn fat_entries(
    order: Seq<usize>,
    pos: Map<usize, StatePosInfo>,
    pad: nat,
) -> Seq<u32> {
    seq![FAT32_EOC, FAT32_EOC] + fat_chains(order, pos, order.len() as int) + Seq::new(
        pad,
        |k: int| FAT32_EOC,
    )
}

/// The bytes of a sequence of 32-bit entries, each lowest byte first.
pub open spec fn le_words(entries: Seq<u32>) -> Seq<u8> {
    Seq::new(4 * entries.len(), |i: int| u32_le(entries[i / 4])[i % 4])
}

/// The sectors of the table.
pub open spec fn fat_image(order: Seq<usize>, pos: Map<usize, StatePosInfo>, pad: nat) -> Seq<u8> {
    block_padded(le_words(fat_entries(order, pos, pad)))
}

/// What is wrong with the first of the first `index` states that has no
/// chain: it is missing from the table, or its directory is empty.
pub open spec fn fat_fault(order: Seq<usize>, pos: Map<usize, StatePosInfo>, index: int) -> Option<
    ImageError,
>
    decreases index,
{
    if index <= 0 {
        None
    } else {
        match fat_fault(order, pos, index - 1) {
            Some(error) => Some(error),
            None => if !pos.dom().contains(order[index - 1]) {
                Some(ImageError::InvalidStateReference)
            } else if run_clusters(pos, order[index - 1]) == 0 {
                Some(ImageError::ZeroSizeState)
            } else {
                None
            },
        }
    }
}

/// Whether the clusters of the chains, as far as chains are written, have
/// numbers of 32 bits.
pub open spec fn chains_fit(order: Seq<usize>, pos: Map<usize, StatePosInfo>) -> bool {
    forall|index: int|
        0 <= index <= order.len() && fat_fault(order, pos, index) is None ==> 2
            + #[trigger] clusters_before(order, pos, index) <= u32::MAX
}

/// One more entry gives four more bytes.
pub proof fn lemma_le_words_push(entries: Seq<u32>, entry: u32)
    ensures
        le_words(entries.push(entry)) == le_words(entries) + u32_le(entry),
{
    assert(le_words(entries.push(entry)) =~= le_words(entries) + u32_le(entry));
}

fn push_u32(bytes: &mut Vec<u8>, value: u32)
    ensures
        final(bytes)@ == old(bytes)@ + u32_le(value),
{
    bytes.push((value % 256) as u8);
    bytes.push((value / 256 % 256) as u8);
    bytes.push((value / 65536 % 256) as u8);
    bytes.push((value / 16777216) as u8);
    assert(bytes@ =~= old(bytes)@ + u32_le(value));
}

/// The file allocation table: the chains of the directories in the order of
/// the list, then `pad` chains of one cluster each, in whole sectors.
pub fn generate_fat(state_blocks: &StateFatMap, pad: UFat) -> (fat: Result<Vec<u8>, ImageError>)
    requires
        chains_fit(state_blocks.order_list@, state_blocks.pos_hash@),
    ensures
        match fat_fault(
            state_blocks.order_list@,
            state_blocks.pos_hash@,
            state_blocks.order_list@.len() as int,
        ) {
            Some(fault) => fat matches Err(error) && error == fault,
            None => fat matches Ok(bytes) && bytes@ == fat_image(
                state_blocks.order_list@,
                state_blocks.pos_hash@,
                pad as nat,
            ),
        },
{
    let ghost order = state_blocks.order_list@;
    let ghost pos = state_blocks.pos_hash@;
    let mut fat: Vec<u8> = Vec::new();
    push_u32(&mut fat, FAT32_EOC);
    push_u32(&mut fat, FAT32_EOC);
    let ghost mut entries: Seq<u32> = seq![FAT32_EOC, FAT32_EOC];
    proof {
        lemma_le_words_push(Seq::empty(), FAT32_EOC);
        lemma_le_words_push(seq![FAT32_EOC], FAT32_EOC);
        assert(le_words(Seq::<u32>::empty()) =~= Seq::<u8>::empty());
        assert(seq![FAT32_EOC] =~= Seq::<u32>::empty().push(FAT32_EOC));
        assert(entries =~= seq![FAT32_EOC].push(FAT32_EOC));
        assert(fat@ =~= le_words(entries));
        assert(entries =~= seq![FAT32_EOC, FAT32_EOC] + fat_chains(order, pos, 0));
    }
    let mut current_cluster: UFat = 2;
    let mut index: usize = 0;
    while index < state_blocks.order_list.len()
        invariant
            order == state_blocks.order_list@,
            pos == state_blocks.pos_hash@,
            chains_fit(order, pos),
            index <= order.len(),
            fat_fault(order, pos, index as int) is None,
            current_cluster == 2 + clusters_before(order, pos, index as int),
            entries == seq![FAT32_EOC, FAT32_EOC] + fat_chains(order, pos, index as int),
            fat@ == le_words(entries),
        decreases order.len() - index,
    {
        let state: usize = state_blocks.order_list[index];
        let pl = match state_blocks.pos_hash.get(&state) {
            Some(x) => x,
            None => {
                proof {
                    lemma_fat_fault_stays(order, pos, index + 1, order.len() as int);
                }
                return Err(ImageError::InvalidStateReference);
            },
        };
        let size: UFat = len_to_block(pl.byte_sized);
        let ghost run = run_clusters(pos, state);
        proof {
            if run != 0 {
                assert(fat_fault(order, pos, index + 1) is None);
                assert(2 + clusters_before(order, pos, index + 1) <= u32::MAX);
            }
            assert(size == run);
        }
        if size == 0 {
            proof {
                lemma_fat_fault_stays(order, pos, index + 1, order.len() as int);
            }
            return Err(ImageError::ZeroSizeState);
        }
        let ghost base = entries;
        let ghost first = current_cluster as nat;
        let mut i: UFat = 0;
        while i < size
            invariant
                i <= size,
                size == run,
                first + run <= u32::MAX,
                current_cluster == first + i,
                entries.len() == base.len() + i,
                forall|k: int| 0 <= k < base.len() ==> entries[k] == base[k],
                forall|k: int| 0 <= k < i ==> entries[base.len() + k] == chain(first, run)[k],
                fat@ == le_words(entries),
            decreases size - i,
        {
            current_cluster += 1;
            let entry: UFat = if i == size - 1 {
                FAT32_EOC
            } else {
                current_cluster
            };
            push_u32(&mut fat, entry);
            proof {
                lemma_le_words_push(entries, entry);
                entries = entries.push(entry);
            }
            i += 1;
        }
        proof {
            assert(entries =~= base + chain(first, run));
            assert(entries =~= seq![FAT32_EOC, FAT32_EOC] + fat_chains(order, pos, index + 1));
        }
        index += 1;
    }
    let ghost chained = entries;
    let mut padded: UFat = 0;
    proof {
        assert(entries =~= chained + Seq::new(0nat, |k: int| FAT32_EOC));
    }
    while padded < pad
        invariant
            padded <= pad,
            entries == chained + Seq::new(padded as nat, |k: int| FAT32_EOC),
            fat@ == le_words(entries),
        decreases pad - padded,
    {
        push_u32(&mut fat, FAT32_EOC);
        proof {
            lemma_le_words_push(entries, FAT32_EOC);
            entries = entries.push(FAT32_EOC);
            assert(entries =~= chained + Seq::new((padded + 1) as nat, |k: int| FAT32_EOC));
        }
        padded += 1;
    }
    proof {
        assert(entries =~= fat_entries(order, pos, pad as nat));
    }
    pad_to_block(&mut fat);
    Ok(fat)
}

/// A fault among the first states is the fault among more of them.
pub proof fn lemma_fat_fault_stays(
    order: Seq<usize>,
    pos: Map<usize, StatePosInfo>,
    low: int,
    high: int,
)
    requires
        low <= high,
        fat_fault(order, pos, low) is Some,
    ensures
        fat_fault(order, pos, high) == fat_fault(order, pos, low),
    decreases high - low,
{
    if low < high {
        lemma_fat_fault_stays(order, pos, low, high - 1);
    }
}

/// The chains of the first `index` states have an entry for each of their
/// clusters.
pub proof fn lemma_fat_chains_len(order: Seq<usize>, pos: Map<usize, StatePosInfo>, index: int)
    ensures
        fat_chains(order, pos, index).len() == clusters_before(order, pos, index),
    decreases index,
{
    if index > 0 {
        lemma_fat_chains_len(order, pos, index - 1);
    }
}

/// Among the chains of the first `index` states, the entries of the state at
/// `state_index` stand where its clusters are counted.
pub proof fn lemma_fat_chains_entry(
    order: Seq<usize>,
    pos: Map<usize, StatePosInfo>,
    index: int,
    state_index: int,
    k: int,
)
    requires
        0 <= state_index < index,
        0 <= k < run_clusters(pos, order[state_index]),
    ensures
        clusters_before(order, pos, state_index) + k < fat_chains(order, pos, index).len(),
        fat_chains(order, pos, index)[clusters_before(order, pos, state_index) + k] == chain(
            2 + clusters_before(order, pos, state_index),
            run_clusters(pos, order[state_index]),
        )[k],
    decreases index,
{
    lemma_fat_chains_len(order, pos, index - 1);
    lemma_fat_chains_len(order, pos, index);
    if state_index < index - 1 {
        lemma_fat_chains_entry(order, pos, index - 1, state_index, k);
    }
}

/// The table has an entry for every cluster of the data area, and the entry
/// of each cluster of a directory names the next cluster of that directory,
/// or ends the chain at its last cluster.
pub proof fn lemma_fat_chain(map: StateFatMap, pad: nat, state_index: int, k: int)
    requires
        map.wf(),
        0 <= state_index < map.order_list@.len(),
        0 <= k < map.cluster_run(map.order_list@[state_index]),
    ensures
        fat_entries(map.order_list@, map.pos_hash@, pad).len() == 2 + map.blocks + pad,
        map.first_cluster(map.order_list@[state_index]) + k < 2 + map.blocks,
        fat_entries(map.order_list@, map.pos_hash@, pad)[map.first_cluster(
            map.order_list@[state_index],
        ) + k] == if k == map.cluster_run(map.order_list@[state_index]) - 1 {
            FAT32_EOC as int
        } else {
            map.first_cluster(map.order_list@[state_index]) + k + 1
        },
{
    let order = map.order_list@;
    let pos = map.pos_hash@;
    lemma_fat_chains_len(order, pos, order.len() as int);
    lemma_fat_chains_entry(order, pos, order.len() as int, state_index, k);
    crate::layout::lemma_clusters_before_grows(order, pos, state_index + 1, order.len() as int);
    assert(map.first_cluster(order[state_index]) == 2 + clusters_before(order, pos, state_index));
}

/// Where all cluster numbers lie below the end-of-chain mark, the chain of
/// a directory holds that mark once: in the entry of its last cluster.
pub proof fn lemma_fat_chain_ends_once(map: StateFatMap, pad: nat, state_index: int, k: int)
    requires
        map.wf(),
        2 + map.blocks <= FAT32_EOC,
        0 <= state_index < map.order_list@.len(),
        0 <= k < map.cluster_run(map.order_list@[state_index]),
    ensures
        fat_entries(map.order_list@, map.pos_hash@, pad)[map.first_cluster(
            map.order_list@[state_index],
        ) + k] == FAT32_EOC <==> k == map.cluster_run(map.order_list@[state_index]) - 1,
{
    lemma_fat_chain(map, pad, state_index, k);
    if k + 1 < map.cluster_run(map.order_list@[state_index]) {
        lemma_fat_chain(map, pad, state_index, k + 1);
    }
}

/// The clusters behind the directories are chains of their own.
pub proof fn lemma_fat_padding(map: StateFatMap, pad: nat, k: int)
    requires
        map.wf(),
        0 <= k < pad,
    ensures
        fat_entries(map.order_list@, map.pos_hash@, pad)[2 + map.blocks + k] == FAT32_EOC,
        fat_entries(map.order_list@, map.pos_hash@, pad)[0] == FAT32_EOC,
        fat_entries(map.order_list@, map.pos_hash@, pad)[1] == FAT32_EOC,
{
    lemma_fat_chains_len(map.order_list@, map.pos_hash@, map.order_list@.len() as int);
}

/// Four bytes of the encoding hold each entry.
pub proof fn lemma_le_words_entry(entries: Seq<u32>, index: int)
    requires
        0 <= index < entries.len(),
    ensures
        le_words(entries).len() == 4 * entries.len(),
        le_words(entries).subrange(4 * index, 4 * index + 4) == u32_le(entries[index]),
        u32_from_le(le_words(entries).subrange(4 * index, 4 * index + 4)) == entries[index],
{
    assert(le_words(entries).subrange(4 * index, 4 * index + 4) =~= u32_le(entries[index]));
    lemma_u32_le_round_trip(entries[index]);
}

/// The table fills the sectors that the boot sector announces.
pub proof fn lemma_fat_image_len(map: StateFatMap, pad: nat)
    requires
        map.wf(),
    ensures
        fat_image(map.order_list@, map.pos_hash@, pad).len() == 512 * fat_sectors(
            map.blocks as nat + pad,
        ),
{
    lemma_fat_chains_len(map.order_list@, map.pos_hash@, map.order_list@.len() as int);
    lemma_block_padded_len(le_words(fat_entries(map.order_list@, map.pos_hash@, pad)));
}

} // verus!

use regex2fat::fat32::{
    append_zeros, fat_size, generate_dir_short, generate_file, generate_header, len_to_block,
    pad_to_block, write_u16_into, write_u32_into, BLOCK_SIZE, FAT32_EOC,
};

#[test]
fn len_to_block_rounds_up() {
    assert_eq!(len_to_block(0), 0);
    assert_eq!(len_to_block(1), 1);
    assert_eq!(len_to_block(511), 1);
    assert_eq!(len_to_block(512), 1);
    assert_eq!(len_to_block(513), 2);
    assert_eq!(len_to_block(1024), 2);
    assert_eq!(len_to_block(1664), 4);
    assert_eq!(len_to_block(1696), 4);
}

#[test]
fn len_to_block_keeps_the_low_32_bits() {
    let expected: u32 = if usize::BITS == 64 { 0 } else { 8388608 };
    assert_eq!(len_to_block(usize::MAX), expected);
}

#[test]
fn block_size_is_one_sector() {
    assert_eq!(BLOCK_SIZE, 512);
    assert_eq!(FAT32_EOC, 0x0fff_ffff);
}

#[test]
fn write_u32_into_is_little_endian() {
    let mut bytes = vec![9u8; 8];
    write_u32_into(&mut bytes, 2, 0x1234_5678);
    assert_eq!(bytes, vec![9, 9, 0x78, 0x56, 0x34, 0x12, 9, 9]);
}

#[test]
fn write_u32_into_drops_what_falls_behind_the_end() {
    let mut bytes = vec![9u8; 4];
    write_u32_into(&mut bytes, 2, 0xa1b2_c3d4);
    assert_eq!(bytes, vec![9, 9, 0xd4, 0xc3]);
    write_u32_into(&mut bytes, 4, 0xa1b2_c3d4);
    assert_eq!(bytes, vec![9, 9, 0xd4, 0xc3]);
    write_u32_into(&mut bytes, usize::MAX, 0xa1b2_c3d4);
    assert_eq!(bytes, vec![9, 9, 0xd4, 0xc3]);
}

#[test]
fn write_u16_into_is_little_endian() {
    let mut bytes = vec![0u8; 4];
    write_u16_into(&mut bytes, 1, 0xbeef);
    assert_eq!(bytes, vec![0, 0xef, 0xbe, 0]);
    write_u16_into(&mut bytes, 3, 0x0102);
    assert_eq!(bytes, vec![0, 0xef, 0xbe, 0x02]);
}

#[test]
fn fat_size_counts_two_reserved_entries() {
    assert_eq!(fat_size(0), 1);
    assert_eq!(fat_size(126), 1);
    assert_eq!(fat_size(127), 2);
    assert_eq!(fat_size(65536), 513);
    assert_eq!(fat_size(u32::MAX), 33554433);
}

#[test]
fn header_has_the_boot_sector_fields() {
    let header = generate_header(65536);
    assert_eq!(header.len(), 8 * 512);
    assert_eq!(&header[0..3], &[0xeb, 0xfe, 0x90]);
    assert_eq!(&header[3..11], b"regex   ");
    assert_eq!(&header[11..13], &[0x00, 0x02]);
    assert_eq!(header[13], 1);
    assert_eq!(&header[14..16], &[0x08, 0x00]);
    assert_eq!(header[16], 1);
    assert_eq!(header[21], 0xf8);
    // 65536 + 8 + 513 sectors
    assert_eq!(&header[32..36], &[0x09, 0x02, 0x01, 0x00]);
    assert_eq!(&header[36..40], &[0x01, 0x02, 0x00, 0x00]);
    assert_eq!(&header[44..48], &[0x02, 0x00, 0x00, 0x00]);
    assert_eq!(&header[48..50], &[0x01, 0x00]);
    assert_eq!(&header[50..52], &[0x06, 0x00]);
    assert_eq!(&header[82..90], b"FAT32   ");
    assert!(header[90..510].iter().all(|&b| b == 0));
    assert_eq!(&header[510..512], &[0x55, 0xaa]);
}

#[test]
fn header_has_the_fsinfo_sector() {
    let header = generate_header(65536);
    let fsinfo = &header[512..1024];
    assert_eq!(&fsinfo[0..4], b"RRaA");
    assert!(fsinfo[4..484].iter().all(|&b| b == 0));
    assert_eq!(&fsinfo[484..488], b"rrAa");
    assert_eq!(&fsinfo[488..492], &[0, 0, 0, 0]);
    assert_eq!(&fsinfo[492..496], &[0xff, 0xff, 0xff, 0xff]);
    assert!(fsinfo[496..508].iter().all(|&b| b == 0));
    assert_eq!(&fsinfo[508..512], &[0x00, 0x00, 0x55, 0xaa]);
}

#[test]
fn header_has_four_zero_sectors_and_the_backup() {
    let header = generate_header(70000);
    assert!(header[1024..3072].iter().all(|&b| b == 0));
    assert_eq!(&header[3072..4096], &header[0..1024]);
    // 70000 + 8 + 547 sectors
    assert_eq!(&header[32..36], &70555u32.to_le_bytes());
    assert_eq!(&header[36..40], &547u32.to_le_bytes());
}

#[test]
fn dir_short_entry_names_the_letter() {
    let entry = generate_dir_short(b'A', 0x0001_2345);
    assert_eq!(entry.len(), 32);
    assert_eq!(&entry[0..11], b"A          ");
    assert_eq!(entry[11], 0x11);
    assert!(entry[12..20].iter().all(|&b| b == 0));
    assert_eq!(&entry[20..22], &[0x01, 0x00]);
    assert_eq!(&entry[22..24], &[0x00, 0x00]);
    assert_eq!(&entry[24..26], &[0x21, 0x00]);
    assert_eq!(&entry[26..28], &[0x45, 0x23]);
    assert_eq!(&entry[28..32], &[0, 0, 0, 0]);
}

#[test]
fn dir_short_entry_for_space_is_called_space() {
    let entry = generate_dir_short(0x20, 9);
    assert_eq!(&entry[0..11], b"SPACE      ");
    assert_eq!(entry[11], 0x11);
    assert_eq!(&entry[20..22], &[0x00, 0x00]);
    assert_eq!(&entry[26..28], &[0x09, 0x00]);
    let other = generate_dir_short(b'S', 9);
    assert_eq!(&other[0..11], b"S          ");
}

#[test]
fn dir_short_entry_splits_the_cluster_number() {
    let entry = generate_dir_short(b'!', 0xfedc_ba98);
    assert_eq!(&entry[0..11], b"!          ");
    assert_eq!(&entry[20..22], &[0xdc, 0xfe]);
    assert_eq!(&entry[26..28], &[0x98, 0xba]);
}

#[test]
fn file_entry_is_an_empty_file() {
    let entry = generate_file(*b"MATCH      ", 0x0002_0007);
    assert_eq!(entry.len(), 32);
    assert_eq!(&entry[0..11], b"MATCH      ");
    assert_eq!(entry[11], 0x00);
    assert!(entry[12..20].iter().all(|&b| b == 0));
    assert_eq!(&entry[20..22], &[0x02, 0x00]);
    assert_eq!(&entry[24..26], &[0x21, 0x00]);
    assert_eq!(&entry[26..28], &[0x07, 0x00]);
    assert_eq!(&entry[28..32], &[0, 0, 0, 0]);
}

#[test]
fn header_of_a_volume_near_the_largest() {
    // 4261412864 + 8 + 33292289 sectors
    let header = generate_header(4261412864);
    assert_eq!(&header[32..36], &[0x09, 0x00, 0xfc, 0xff]);
    assert_eq!(&header[36..40], &[0x01, 0x00, 0xfc, 0x01]);
    assert_eq!(&header[3072 + 32..3072 + 36], &[0x09, 0x00, 0xfc, 0xff]);
}

#[test]
fn padding_fills_the_last_sector_with_zeros() {
    let mut bytes = vec![7u8; 3];
    append_zeros(&mut bytes, 2);
    assert_eq!(bytes, vec![7, 7, 7, 0, 0]);
    pad_to_block(&mut bytes);
    assert_eq!(bytes.len(), 512);
    assert_eq!(&bytes[0..3], &[7, 7, 7]);
    assert!(bytes[3..].iter().all(|&b| b == 0));
    pad_to_block(&mut bytes);
    assert_eq!(bytes.len(), 512);
    let mut empty: Vec<u8> = Vec::new();
    pad_to_block(&mut empty);
    assert!(empty.is_empty());
}

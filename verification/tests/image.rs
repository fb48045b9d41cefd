use regex2fat::alphabet::default_alphabet;
use regex2fat::automaton::Automaton;
use regex2fat::error::ImageError;
use regex2fat::layout::determine_state_positions;
use regex2fat::volume::{assemble_volume, generate_state_directory, regex_to_fat32};

fn u16_at(bytes: &[u8], at: usize) -> usize {
    u16::from_le_bytes([bytes[at], bytes[at + 1]]) as usize
}

fn u32_at(bytes: &[u8], at: usize) -> usize {
    u32::from_le_bytes([bytes[at], bytes[at + 1], bytes[at + 2], bytes[at + 3]]) as usize
}

fn name_of(letter: u8) -> [u8; 11] {
    let mut name = [b' '; 11];
    if letter == b' ' {
        name[..5].copy_from_slice(b"SPACE");
    } else {
        name[0] = letter;
    }
    name
}

/// The bytes of the file or directory that starts at `cluster`, as a reader
/// of the volume finds them by following the allocation table.
fn read_chain(image: &[u8], cluster: usize) -> Vec<u8> {
    let sector = u16_at(image, 11);
    let cluster_size = sector * image[13] as usize;
    let table = u16_at(image, 14) * sector;
    let data = table + image[16] as usize * u32_at(image, 36) * sector;
    let mut bytes = Vec::new();
    let mut current = cluster;
    let mut steps = 0;
    loop {
        let at = data + (current - 2) * cluster_size;
        bytes.extend_from_slice(&image[at..at + cluster_size]);
        let next = u32_at(image, table + 4 * current) & 0x0fff_ffff;
        if next >= 0x0fff_fff8 {
            return bytes;
        }
        current = next;
        steps += 1;
        assert!(steps < 1000, "the chain does not end");
    }
}

/// The entry called `name` in the directory that starts at `cluster`.
fn find(image: &[u8], cluster: usize, name: &[u8; 11]) -> Option<Vec<u8>> {
    let directory = read_chain(image, cluster);
    for entry in directory.chunks(32) {
        if entry[0] == 0 {
            return None;
        }
        if entry[0] != 0xe5 && &entry[0..11] == name {
            return Some(entry.to_vec());
        }
    }
    None
}

fn cluster_of(entry: &[u8]) -> usize {
    (u16_at(entry, 20) << 16) | u16_at(entry, 26)
}

/// The cluster in which the path that spells `word` ends.
fn walk(image: &[u8], word: &[u8]) -> usize {
    let mut cluster = u32_at(image, 44);
    for &letter in word {
        let entry = find(image, cluster, &name_of(letter)).expect("no such subdirectory");
        assert_eq!(entry[11] & 0x10, 0x10);
        cluster = cluster_of(&entry);
    }
    cluster
}

fn run(automaton: &Automaton, word: &[u8]) -> usize {
    let mut state = automaton.start_state();
    for &byte in word {
        state = automaton.next_state(state, byte);
    }
    state
}

fn check_invariants(image: &[u8], automaton: &Automaton, alphabet: &[u8], nomatch: bool) {
    let map = determine_state_positions(automaton, alphabet, nomatch, false).unwrap();
    let states = map.order_list.len();
    // the size that the boot sector announces
    assert_eq!(image.len() % 512, 0);
    assert_eq!(image.len() / 512, u32_at(image, 32));
    let table_sectors = u32_at(image, 36);
    let data_clusters = u32_at(image, 32) - 8 - table_sectors;
    assert!(data_clusters >= 65525);
    assert_eq!(data_clusters, (map.blocks as usize + 1).max(65536));
    assert_eq!(table_sectors, ((data_clusters + 2) * 4 + 511) / 512);
    assert_eq!(&image[3072..4096], &image[0..1024]);
    // the root directory is that of the start state
    assert_eq!(u32_at(image, 44), 2);
    let per_state = map.blocks as usize / states;
    for cluster in (2..2 + map.blocks as usize).step_by(per_state) {
        // every chain ends once, at its last cluster
        for k in 0..per_state {
            let entry = u32_at(image, 4096 + 4 * (cluster + k));
            if k == per_state - 1 {
                assert_eq!(entry, 0x0fff_ffff);
            } else {
                assert_eq!(entry, cluster + k + 1);
            }
        }
        // every entry names the first cluster of a directory
        for &letter in alphabet {
            let entry = find(image, cluster, &name_of(letter)).unwrap();
            let target = cluster_of(&entry);
            assert!(target >= 2 && target < 2 + map.blocks as usize);
            assert_eq!((target - 2) % per_state, 0);
        }
    }
    // the clusters behind the directories are zero and chains of their own
    let data = 4096 + 512 * table_sectors;
    assert!(image[data + 512 * map.blocks as usize..].iter().all(|&b| b == 0));
    for cluster in 2 + map.blocks as usize..2 + data_clusters {
        assert_eq!(u32_at(image, 4096 + 4 * cluster), 0x0fff_ffff);
    }
    assert_eq!(u32_at(image, 4096), 0x0fff_ffff);
    assert_eq!(u32_at(image, 4100), 0x0fff_ffff);
}

fn check_words(image: &[u8], automaton: &Automaton, words: &[&[u8]], nomatch: bool) {
    for word in words {
        let cluster = walk(image, word);
        let accepts = automaton.is_match_state(run(automaton, word));
        assert_eq!(find(image, cluster, b"MATCH      ").is_some(), accepts);
        assert_eq!(find(image, cluster, b"NOMATCH    ").is_some(), nomatch && !accepts);
    }
}

#[test]
fn image_of_a_single_letter() {
    let automaton = Automaton::compile("a", false).unwrap();
    let alphabet = default_alphabet();
    let image = regex_to_fat32(&automaton, &alphabet, false, false).unwrap();
    check_invariants(&image, &automaton, &alphabet, false);
    let map = determine_state_positions(&automaton, &alphabet, false, false).unwrap();
    // the root has a subdirectory A that is the directory of the accepting state
    let entry = find(&image, 2, b"A          ").unwrap();
    let accepting = automaton.next_state(automaton.start_state(), b'A');
    assert!(automaton.is_match_state(accepting));
    assert_eq!(cluster_of(&entry), map.pos_hash[&accepting].block as usize);
    assert!(find(&image, cluster_of(&entry), b"MATCH      ").is_some());
    assert!(find(&image, 2, b"MATCH      ").is_none());
    assert!(find(&image, 2, b"NOMATCH    ").is_none());
    // the marker file is empty and names the first cluster behind the directories
    let marker = find(&image, cluster_of(&entry), b"MATCH      ").unwrap();
    assert_eq!(marker[11], 0);
    assert_eq!(u32_at(&marker, 28), 0);
    assert_eq!(cluster_of(&marker), map.blocks as usize + 2);
    assert_eq!(u32_at(&image, 32), 8 + u32_at(&image, 36) + 65536);
    check_words(&image, &automaton, &[b"", b"A", b"BA", b"AB", b"B B", b"  A", b"BBBB"], false);
}

#[test]
fn image_of_the_empty_word_anchored() {
    // the compiler takes no anchors in the pattern: the flag anchors the
    // start, and a match of the empty pattern cannot be extended
    let automaton = Automaton::compile("", true).unwrap();
    let alphabet = default_alphabet();
    let image = regex_to_fat32(&automaton, &alphabet, false, false).unwrap();
    check_invariants(&image, &automaton, &alphabet, false);
    assert!(automaton.is_match_state(automaton.start_state()));
    assert!(find(&image, 2, b"MATCH      ").is_some());
    let sink = walk(&image, b"A");
    for &letter in &alphabet {
        let cluster = walk(&image, &[letter]);
        assert_eq!(cluster, sink);
        assert!(find(&image, cluster, b"MATCH      ").is_none());
        assert_eq!(walk(&image, &[letter, letter]), sink);
    }
    assert!(sink != 2);
}

#[test]
fn image_of_foo_anchored_with_nomatch() {
    let automaton = Automaton::compile("foo", true).unwrap();
    let alphabet = default_alphabet();
    let image = regex_to_fat32(&automaton, &alphabet, true, false).unwrap();
    check_invariants(&image, &automaton, &alphabet, true);
    let map = determine_state_positions(&automaton, &alphabet, true, false).unwrap();
    let accepting = walk(&image, b"FOO");
    assert!(find(&image, accepting, b"MATCH      ").is_some());
    assert!(find(&image, accepting, b"NOMATCH    ").is_none());
    let mut with_match = 0;
    for state in &map.order_list {
        let cluster = map.pos_hash[state].block as usize;
        if find(&image, cluster, b"MATCH      ").is_some() {
            with_match += 1;
            assert_eq!(cluster, accepting);
        } else {
            assert!(find(&image, cluster, b"NOMATCH    ").is_some());
        }
    }
    assert_eq!(with_match, 1);
    check_words(&image, &automaton, &[b"", b"F", b"FO", b"FOO", b"FOOO", b"OOF", b"FOF"], true);
}

#[test]
fn image_with_space_in_the_alphabet() {
    let automaton = Automaton::compile("a b", true).unwrap();
    let alphabet = default_alphabet();
    assert!(alphabet.contains(&0x20));
    let image = regex_to_fat32(&automaton, &alphabet, false, false).unwrap();
    let map = determine_state_positions(&automaton, &alphabet, false, false).unwrap();
    let after_a = walk(&image, b"A");
    assert!(find(&image, after_a, b"           ").is_none());
    let entry = find(&image, after_a, b"SPACE      ").unwrap();
    let target = automaton.next_state(run(&automaton, b"A"), 0x20);
    assert_eq!(cluster_of(&entry), map.pos_hash[&target].block as usize);
    check_words(&image, &automaton, &[b"A B", b"A  B", b" A B", b"A "], false);
}

#[test]
fn image_follows_the_automaton_on_every_short_word() {
    let automaton = Automaton::compile("(ab)+c|b", false).unwrap();
    let letters = b"ABC";
    let image = regex_to_fat32(&automaton, letters, true, false).unwrap();
    check_invariants(&image, &automaton, letters, true);
    let map = determine_state_positions(&automaton, letters, true, false).unwrap();
    let mut words: Vec<Vec<u8>> = vec![vec![]];
    let mut from = 0;
    for _ in 0..5 {
        let upto = words.len();
        for index in from..upto {
            for &letter in letters {
                let mut longer = words[index].clone();
                longer.push(letter);
                words.push(longer);
            }
        }
        from = upto;
    }
    assert_eq!(words.len(), 1 + 3 + 9 + 27 + 81 + 243);
    for word in &words {
        let state = run(&automaton, word);
        let cluster = walk(&image, word);
        assert_eq!(cluster, map.pos_hash[&state].block as usize);
        assert_eq!(
            find(&image, cluster, b"MATCH      ").is_some(),
            automaton.is_match_state(state)
        );
    }
}

#[test]
fn image_is_the_same_on_repeat_without_randomizing() {
    let automaton = Automaton::compile("ab|cd+", false).unwrap();
    let alphabet = default_alphabet();
    let first = regex_to_fat32(&automaton, &alphabet, false, false).unwrap();
    let second = regex_to_fat32(&automaton, &alphabet, false, false).unwrap();
    assert!(first == second);
    let map = determine_state_positions(&automaton, &alphabet, false, false).unwrap();
    let assembled = assemble_volume(&automaton, &alphabet, &map, false).unwrap();
    assert!(first == assembled);
}

#[test]
fn randomized_image_keeps_the_invariants() {
    let automaton = Automaton::compile("ab|cd+|efg", false).unwrap();
    let alphabet = default_alphabet();
    let plain = regex_to_fat32(&automaton, &alphabet, false, false).unwrap();
    let words: [&[u8]; 8] = [b"", b"AB", b"CDDD", b"EFG", b"EF", b"XAB", b"C D", b"EFGAB"];
    let mut moved = false;
    for _ in 0..4 {
        let image = regex_to_fat32(&automaton, &alphabet, false, true).unwrap();
        assert_eq!(image.len(), plain.len());
        check_invariants(&image, &automaton, &alphabet, false);
        check_words(&image, &automaton, &words, false);
        // the reserved sectors and the table do not depend on the order
        let data = 4096 + 512 * u32_at(&image, 36);
        assert!(image[..data] == plain[..data]);
        moved = moved || image != plain;
    }
    assert!(moved);
}

#[test]
fn assembled_image_follows_a_randomized_layout() {
    let automaton = Automaton::compile("ab|cd+|efg", false).unwrap();
    let alphabet = default_alphabet();
    let map = determine_state_positions(&automaton, &alphabet, true, true).unwrap();
    let image = assemble_volume(&automaton, &alphabet, &map, true).unwrap();
    check_invariants(&image, &automaton, &alphabet, true);
    for word in [&b"AB"[..], b"CDDD", b"EFG", b"EF", b"", b"Q"] {
        let state = run(&automaton, word);
        assert_eq!(walk(&image, word), map.pos_hash[&state].block as usize);
    }
    check_words(&image, &automaton, &[b"AB", b"CD", b"E", b""], true);
}

#[test]
fn state_directory_names_the_successors() {
    let automaton = Automaton::compile("ab", true).unwrap();
    let map = determine_state_positions(&automaton, b"AB", false, false).unwrap();
    let start = automaton.start_state();
    let directory = generate_state_directory(&automaton, b"AB", &map, start, false);
    assert_eq!(directory.len(), 512);
    assert_eq!(&directory[0..11], b"A          ");
    assert_eq!(cluster_of(&directory[0..32]), 3);
    assert_eq!(&directory[32..43], b"B          ");
    assert_eq!(cluster_of(&directory[32..64]), 4);
    assert!(directory[64..].iter().all(|&b| b == 0));
    let accepting = run(&automaton, b"AB");
    let last = generate_state_directory(&automaton, b"AB", &map, accepting, false);
    assert_eq!(cluster_of(&last[0..32]), 4);
    assert_eq!(cluster_of(&last[32..64]), 4);
    assert_eq!(&last[64..75], b"MATCH      ");
    assert_eq!(cluster_of(&last[64..96]), 6);
}

#[test]
fn image_of_a_language_without_words() {
    // no word over the alphabet holds a tilde
    let automaton = Automaton::compile("~", false).unwrap();
    let alphabet = default_alphabet();
    assert!(!alphabet.contains(&b'~'));
    let image = regex_to_fat32(&automaton, &alphabet, false, false).unwrap();
    check_invariants(&image, &automaton, &alphabet, false);
    let map = determine_state_positions(&automaton, &alphabet, false, false).unwrap();
    for state in &map.order_list {
        assert!(!automaton.is_match_state(*state));
        assert!(find(&image, map.pos_hash[state].block as usize, b"MATCH      ").is_none());
    }
    check_words(&image, &automaton, &[b"", b"A", b"AB", b"B"], false);
}

#[test]
fn image_of_the_language_of_all_words() {
    let automaton = Automaton::compile("(?s).*", true).unwrap();
    let alphabet = default_alphabet();
    let image = regex_to_fat32(&automaton, &alphabet, false, false).unwrap();
    check_invariants(&image, &automaton, &alphabet, false);
    let map = determine_state_positions(&automaton, &alphabet, false, false).unwrap();
    for state in &map.order_list {
        assert!(automaton.is_match_state(*state));
        assert!(find(&image, map.pos_hash[state].block as usize, b"MATCH      ").is_some());
    }
    check_words(&image, &automaton, &[b"", b"A", b"AB", b"B  "], false);
}

#[test]
fn image_without_letters_needs_a_marker() {
    let rejecting = Automaton::compile("a", true).unwrap();
    let failed = regex_to_fat32(&rejecting, b"", false, false);
    assert!(matches!(failed, Err(ImageError::ZeroSizeState)));
    let marked = regex_to_fat32(&rejecting, b"", true, false).unwrap();
    assert_eq!(u32_at(&marked, 32) * 512, marked.len());
    assert!(find(&marked, 2, b"NOMATCH    ").is_some());
    let accepting = Automaton::compile("", true).unwrap();
    let image = regex_to_fat32(&accepting, b"", false, false).unwrap();
    assert!(find(&image, 2, b"MATCH      ").is_some());
    // one cluster for the only directory, 65535 behind it
    assert_eq!(u32_at(&image, 32), 8 + 513 + 65536);
}

#[test]
fn image_pads_to_the_smallest_fat32_volume() {
    let automaton = Automaton::compile("a", false).unwrap();
    let alphabet = default_alphabet();
    let map = determine_state_positions(&automaton, &alphabet, false, false).unwrap();
    let image = regex_to_fat32(&automaton, &alphabet, false, false).unwrap();
    let table_sectors = u32_at(&image, 36);
    assert_eq!(table_sectors, 513);
    assert_eq!(image.len(), 512 * (8 + 513 + 65536));
    let data = 4096 + 512 * table_sectors;
    let used = 512 * map.blocks as usize;
    assert!(image[data..data + used].iter().any(|&b| b != 0));
    assert!(image[data + used..].iter().all(|&b| b == 0));
}

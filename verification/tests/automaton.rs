use regex2fat::alphabet::{default_alphabet, forbidden, is_valid_alphabet};
use regex2fat::automaton::{compile_failure, Automaton};
use regex2fat::enumerate::{enumerate_states, visit};
use regex2fat::error::ImageError;
use regex2fat::layout::{acceptance, determine_state_positions};
use std::collections::HashSet;

fn run(automaton: &Automaton, word: &[u8]) -> usize {
    let mut state = automaton.start_state();
    for &byte in word {
        state = automaton.next_state(state, byte);
    }
    state
}

#[test]
fn default_alphabet_is_upper_case_ascii_without_reserved_characters() {
    let alphabet = default_alphabet();
    let expected: Vec<u8> = b" !#$%&'()-0123456789@ABCDEFGHIJKLMNOPQRSTUVWXYZ^_`{}".to_vec();
    assert_eq!(alphabet, expected);
    assert_eq!(alphabet.len(), 52);
}

#[test]
fn forbidden_characters_are_the_reserved_ones() {
    for &byte in b"\"*+,./:;<=>?[\\]|" {
        assert!(forbidden(byte));
    }
    for &byte in b" A0~a" {
        assert!(!forbidden(byte));
    }
}

#[test]
fn compile_rejects_a_broken_pattern() {
    match Automaton::compile("(", false) {
        Err(ImageError::RegexCompile { reason }) => assert!(!reason.is_empty()),
        _ => panic!("a lone parenthesis compiled"),
    }
}

#[test]
fn compile_failure_carries_the_text_of_the_compiler() {
    let error = regex_automata::dense::Builder::new().build("a{2,1}").unwrap_err();
    let text = error.to_string();
    assert!(!text.is_empty());
    match compile_failure(&error) {
        ImageError::RegexCompile { reason } => assert_eq!(reason, text),
        _ => panic!("not a compile failure"),
    }
    match Automaton::compile("a{2,1}", false) {
        Err(failure) => assert_eq!(failure.message(), text),
        Ok(_) => panic!("an empty repetition range compiled"),
    }
}

#[test]
fn compile_rejects_anchors_in_the_pattern() {
    assert!(matches!(Automaton::compile("^$", true), Err(ImageError::RegexCompile { .. })));
    assert!(matches!(Automaton::compile("[a&&b]", true), Err(ImageError::RegexCompile { .. })));
}

#[test]
fn compile_ignores_case() {
    let automaton = Automaton::compile("foo", true).unwrap();
    assert!(automaton.is_match_state(run(&automaton, b"foo")));
    assert!(automaton.is_match_state(run(&automaton, b"FOO")));
    assert!(automaton.is_match_state(run(&automaton, b"fOo")));
    assert!(!automaton.is_match_state(run(&automaton, b"fo")));
    assert!(!automaton.is_match_state(run(&automaton, b"bar")));
}

#[test]
fn compile_anchors_on_demand() {
    let anchored = Automaton::compile("a", true).unwrap();
    assert!(anchored.is_match_state(run(&anchored, b"A")));
    assert!(!anchored.is_match_state(run(&anchored, b"BA")));
    let floating = Automaton::compile("a", false).unwrap();
    assert!(floating.is_match_state(run(&floating, b"A")));
    assert!(floating.is_match_state(run(&floating, b"BA")));
    assert!(!floating.is_match_state(run(&floating, b"B")));
}

#[test]
fn enumeration_starts_with_the_start_state_and_lists_each_state_once() {
    let automaton = Automaton::compile("ab|cd+", false).unwrap();
    let alphabet = default_alphabet();
    let order = enumerate_states(&automaton, &alphabet);
    assert_eq!(order[0], automaton.start_state());
    let distinct: HashSet<usize> = order.iter().cloned().collect();
    assert_eq!(distinct.len(), order.len());
}

#[test]
fn enumeration_is_closed_under_every_letter() {
    let automaton = Automaton::compile("ab|cd+", false).unwrap();
    let alphabet = default_alphabet();
    let order = enumerate_states(&automaton, &alphabet);
    let listed: HashSet<usize> = order.iter().cloned().collect();
    for &state in &order {
        for &letter in &alphabet {
            assert!(listed.contains(&automaton.next_state(state, letter)));
        }
    }
    for word in [&b"AB"[..], b"CDDD", b"XYZ", b"A", b"", b"CD AB"] {
        assert!(listed.contains(&run(&automaton, word)));
    }
}

#[test]
fn enumeration_discovers_breadth_first_in_alphabet_order() {
    let automaton = Automaton::compile("ab|cd+", false).unwrap();
    let alphabet = default_alphabet();
    let order = enumerate_states(&automaton, &alphabet);
    let mut expected = vec![automaton.start_state()];
    let mut cursor = 0;
    while cursor < expected.len() {
        for &letter in &alphabet {
            let next = automaton.next_state(expected[cursor], letter);
            if !expected.contains(&next) {
                expected.push(next);
            }
        }
        cursor += 1;
    }
    assert_eq!(order, expected);
}

#[test]
fn enumeration_over_two_letters_sees_only_what_they_reach() {
    let automaton = Automaton::compile("ab", true).unwrap();
    let order = enumerate_states(&automaton, b"AB");
    // start, after A, dead, after AB
    assert_eq!(order.len(), 4);
    assert_eq!(order[0], automaton.start_state());
    assert_eq!(order[1], automaton.next_state(order[0], b'A'));
    assert_eq!(order[2], automaton.next_state(order[0], b'B'));
    assert_eq!(order[3], automaton.next_state(order[1], b'B'));
    assert_eq!(acceptance(&automaton, &order), vec![false, false, false, true]);
    let narrow = enumerate_states(&automaton, b"B");
    assert_eq!(narrow.len(), 2);
    let none = enumerate_states(&automaton, b"");
    assert_eq!(none, vec![automaton.start_state()]);
}

#[test]
fn positions_follow_the_discovery_order() {
    let automaton = Automaton::compile("ab", true).unwrap();
    let order = enumerate_states(&automaton, b"AB");
    let map = determine_state_positions(&automaton, b"AB", false, false).unwrap();
    assert_eq!(map.order_list, order);
    // two entries, or three with MATCH: one cluster each
    assert_eq!(map.blocks, 4);
    for (index, state) in order.iter().enumerate() {
        assert_eq!(map.pos_hash[state].block, 2 + index as u32);
    }
    assert_eq!(map.pos_hash[&order[0]].byte_sized, 64);
    assert_eq!(map.pos_hash[&order[3]].byte_sized, 96);
}

#[test]
fn positions_with_nomatch_have_room_for_the_marker() {
    let automaton = Automaton::compile("ab", true).unwrap();
    let map = determine_state_positions(&automaton, b"AB", true, false).unwrap();
    for state in &map.order_list {
        assert_eq!(map.pos_hash[state].byte_sized, 96);
    }
}

#[test]
fn randomized_positions_keep_the_start_state_at_the_root() {
    let automaton = Automaton::compile("ab|cd+|efg", false).unwrap();
    let alphabet = default_alphabet();
    let order = enumerate_states(&automaton, &alphabet);
    let mut sorted = order.clone();
    sorted.sort();
    for _ in 0..10 {
        let map = determine_state_positions(&automaton, &alphabet, false, true).unwrap();
        assert_eq!(map.order_list[0], automaton.start_state());
        assert_eq!(map.pos_hash[&automaton.start_state()].block, 2);
        let mut listed = map.order_list.clone();
        listed.sort();
        assert_eq!(listed, sorted);
        assert_eq!(map.pos_hash.len(), order.len());
        let mut cursor = 2;
        for state in &map.order_list {
            assert_eq!(map.pos_hash[state].block, cursor);
            cursor += 4;
        }
        assert_eq!(map.blocks, cursor - 2);
    }
}

#[test]
fn visit_lists_a_state_once() {
    let mut order: Vec<usize> = vec![4];
    let mut seen: HashSet<usize> = HashSet::new();
    seen.insert(4);
    visit(&mut order, &mut seen, 9);
    assert_eq!(order, vec![4, 9]);
    visit(&mut order, &mut seen, 4);
    assert_eq!(order, vec![4, 9]);
    visit(&mut order, &mut seen, 9);
    assert_eq!(order, vec![4, 9]);
    visit(&mut order, &mut seen, 0);
    assert_eq!(order, vec![4, 9, 0]);
    assert_eq!(seen.len(), 3);
}

#[test]
fn enumeration_counts_the_reachable_states() {
    let automaton = Automaton::compile("(ab)+c|b", false).unwrap();
    let letters = b"ABC";
    let order = enumerate_states(&automaton, letters);
    // every state that a word of up to eight letters reaches
    let mut reached: HashSet<usize> = HashSet::new();
    let mut frontier = vec![automaton.start_state()];
    reached.insert(automaton.start_state());
    for _ in 0..8 {
        let mut next = Vec::new();
        for &state in &frontier {
            for &letter in letters {
                let target = automaton.next_state(state, letter);
                if reached.insert(target) {
                    next.push(target);
                }
            }
        }
        frontier = next;
    }
    assert!(frontier.is_empty());
    assert_eq!(order.len(), reached.len());
    for state in &order {
        assert!(reached.contains(state));
    }
}

#[test]
fn valid_alphabets_hold_printable_unreserved_letters() {
    assert!(is_valid_alphabet(&default_alphabet()));
    assert!(is_valid_alphabet(b""));
    assert!(is_valid_alphabet(b"abc xyz~"));
    assert!(!is_valid_alphabet(b"AB*"));
    assert!(!is_valid_alphabet(&[0x41, 0x00]));
    assert!(!is_valid_alphabet(&[0x1f]));
    assert!(!is_valid_alphabet(&[0x7f]));
    assert!(!is_valid_alphabet(&[0xe5]));
}

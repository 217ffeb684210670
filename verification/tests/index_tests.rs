use scrabble_engine::gaddag::{Gaddag, ROOT};

fn index_of(words: &[&str]) -> Gaddag {
    let list: Vec<String> = words.iter().map(|w| w.to_string()).collect();
    Gaddag::from_words(&list)
}

#[test]
fn empty_index_stores_nothing() {
    let index = Gaddag::new();
    assert!(!index.contains_word(""));
    assert!(!index.contains_word("A"));
    assert!(!index.contains_word("!"));
    assert_eq!(index.follow_path(ROOT, ""), Some(ROOT));
    assert_eq!(index.follow_path(ROOT, "A"), None);
}

#[test]
fn every_rotation_of_a_word_is_stored() {
    let index = index_of(&["CAT"]);
    assert!(index.contains_word("C!AT"));
    assert!(index.contains_word("AC!T"));
    assert!(index.contains_word("TAC!"));
}

#[test]
fn nothing_else_is_stored() {
    let index = index_of(&["CAT"]);
    assert!(!index.contains_word("CAT"));
    assert!(!index.contains_word("CA!T"));
    assert!(!index.contains_word("C!A"));
    assert!(!index.contains_word("C!ATS"));
    assert!(!index.contains_word("!CAT"));
    assert!(!index.contains_word("A!T"));
    assert!(!index.contains_word(""));
}

#[test]
fn rotations_of_a_word_outside_the_list_are_not_found() {
    let index = index_of(&["CAT", "CATS", "AT"]);
    assert!(!index.contains_word("C!AR"));
    assert!(!index.contains_word("AC!R"));
    assert!(!index.contains_word("RAC!"));
    assert!(!index.contains_word("T!A"));
    assert!(index.contains_word("A!T"));
    assert!(index.contains_word("TA!"));
    assert!(index.contains_word("STAC!"));
    assert!(index.contains_word("TAC!S"));
}

#[test]
fn a_word_of_one_letter_has_one_rotation() {
    let index = index_of(&["A"]);
    assert!(index.contains_word("A!"));
    assert!(!index.contains_word("A"));
    assert!(!index.contains_word("!A"));
}

#[test]
fn the_empty_word_adds_nothing() {
    let mut index = Gaddag::new();
    assert!(index.generate_permutations(""));
    assert!(!index.contains_word(""));
    assert!(!index.contains_word("!"));
}

#[test]
fn a_word_with_the_separator_is_refused() {
    let mut index = Gaddag::new();
    assert!(!index.generate_permutations("A!B"));
    assert!(!index.contains_word("A!!B"));
    assert!(!index.contains_word("!A!B"));
    assert_eq!(index.follow_path(ROOT, "A"), None);
    assert!(index.generate_permutations("AB"));
    assert!(index.contains_word("A!B"));
    assert!(index.contains_word("BA!"));
}

#[test]
fn the_list_skips_words_with_the_separator() {
    let index = index_of(&["AT", "T!A", "TO"]);
    assert!(index.contains_word("A!T"));
    assert!(index.contains_word("T!O"));
    assert!(index.contains_word("OT!"));
    assert!(!index.contains_word("T!!A"));
    assert!(!index.contains_word("T!A"));
}

#[test]
fn storing_a_word_twice_changes_nothing() {
    let mut index = Gaddag::new();
    assert!(index.generate_permutations("AT"));
    assert!(index.generate_permutations("AT"));
    assert!(index.contains_word("A!T"));
    assert!(index.contains_word("TA!"));
    assert!(!index.contains_word("AT!"));
}

#[test]
fn a_stored_sequence_is_found_as_it_was_given() {
    let mut index = Gaddag::new();
    index.insert_into_gaddag(&['X', 'Y']);
    assert!(index.contains_word("XY"));
    assert!(index.contains_chars(&['X', 'Y']));
    assert!(!index.contains_word("X"));
    assert!(!index.contains_word("XYZ"));
    index.insert_into_gaddag(&[]);
    assert!(index.contains_word(""));
}

#[test]
fn follow_path_walks_edge_by_edge() {
    let index = index_of(&["CAT"]);
    let c = index.child(ROOT, 'C').unwrap();
    assert_eq!(index.follow_path(ROOT, "C"), Some(c));
    let after_separator = index.child(c, '!').unwrap();
    assert_eq!(index.follow_path(ROOT, "C!"), Some(after_separator));
    assert_eq!(index.follow_path(c, "!"), Some(after_separator));
    let end = index.follow_path(after_separator, "AT").unwrap();
    assert_eq!(index.follow_path(ROOT, "C!AT"), Some(end));
    assert!(index.is_word(end));
    assert!(!index.is_word(after_separator));
    assert_eq!(index.follow_path(ROOT, "C!AX"), None);
    assert_eq!(index.follow_path(ROOT, "CX!AT"), None);
    assert_eq!(index.child(ROOT, 'Z'), None);
    assert_eq!(index.follow_chars(ROOT, &['C', '!', 'A', 'T']), Some(end));
}

#[test]
fn words_that_share_a_start_share_nodes() {
    let index = index_of(&["CAT", "CAR"]);
    let shared = index.follow_path(ROOT, "C!A").unwrap();
    let t = index.child(shared, 'T').unwrap();
    let r = index.child(shared, 'R').unwrap();
    assert_ne!(t, r);
    assert!(index.is_word(t));
    assert!(index.is_word(r));
    assert!(!index.is_word(shared));
}

use scrabble_engine::bag::{augment_rack, rack_to_string, Bag};
use scrabble_engine::constants::{letter_occurrence, tile_letter};
use scrabble_engine::rack::Rack;

fn count_in(tiles: &[char], letter: char) -> usize {
    tiles.iter().filter(|&&c| c == letter).count()
}

fn rack_from(tiles: &str) -> Rack {
    let mut rack = Rack::new();
    for tile in tiles.chars() {
        assert!(rack.add(tile));
    }
    rack
}

#[test]
fn the_empty_rack_holds_nothing() {
    let rack = Rack::new();
    assert!(rack.is_empty());
    assert_eq!(rack.total(), 0);
    assert_eq!(rack.count('A'), 0);
    assert_eq!(rack.count('?'), 0);
    assert_eq!(rack_to_string(&rack), "");
}

#[test]
fn a_rack_counts_its_tiles() {
    let mut rack = Rack::new();
    assert!(rack.add('E'));
    assert!(rack.add('?'));
    assert!(rack.add('E'));
    assert!(rack.add('Z'));
    assert_eq!(rack.count('E'), 2);
    assert_eq!(rack.count('Z'), 1);
    assert_eq!(rack.count('?'), 1);
    assert_eq!(rack.count('A'), 0);
    assert_eq!(rack.total(), 4);
    assert!(!rack.is_empty());
}

#[test]
fn a_rack_takes_tiles_only() {
    let mut rack = Rack::new();
    assert!(!rack.add('e'));
    assert!(!rack.add('!'));
    assert!(!rack.add(' '));
    assert!(rack.is_empty());
    assert_eq!(rack.count('e'), 0);
}

#[test]
fn without_takes_one_tile_away() {
    let rack = rack_from("EE?");
    let less = rack.without('E');
    assert_eq!(less.count('E'), 1);
    assert_eq!(less.count('?'), 1);
    assert_eq!(less.total(), 2);
    assert_eq!(less.without('E').without('?'), Rack::new());
    assert_eq!(rack.without('A'), rack);
    assert_eq!(rack.without('!'), rack);
    assert_eq!(rack.count('E'), 2);
}

#[test]
fn rack_to_string_spells_the_rack_in_order() {
    assert_eq!(rack_to_string(&rack_from("TAC")), "ACT");
    assert_eq!(rack_to_string(&rack_from("?ZEBRAE?")), "ABEERZ??");
    assert_eq!(rack_to_string(&rack_from("EEEEEEE")), "EEEEEEE");
}

#[test]
fn augment_rack_adds_each_letter() {
    let mut rack = rack_from("AB");
    augment_rack(&mut rack, vec!['B', '?', 'C', 'B']);
    assert_eq!(rack_to_string(&rack), "ABBBC?");
    augment_rack(&mut rack, Vec::new());
    assert_eq!(rack.total(), 6);
    augment_rack(&mut rack, vec!['x', 'D']);
    assert_eq!(rack_to_string(&rack), "ABBBCD?");
}

#[test]
fn the_full_bag_holds_every_tile_of_the_game() {
    let bag = Bag::new();
    assert_eq!(bag.bag.len(), 102);
    for k in 0..27 {
        let letter = tile_letter(k);
        assert_eq!(count_in(&bag.bag, letter), letter_occurrence(letter));
    }
    assert_eq!(bag.bag[0], 'A');
    assert_eq!(bag.bag[8], 'A');
    assert_eq!(bag.bag[9], 'B');
    assert_eq!(bag.bag[101], '?');
    assert_eq!(bag.bag[100], '?');
    assert_eq!(bag.bag[99], 'Z');
}

#[test]
fn take_removes_the_tile_at_a_position() {
    let mut bag = Bag { bag: vec!['A', 'B', 'C', 'D'] };
    assert_eq!(bag.take(1), 'B');
    assert_eq!(bag.bag, vec!['A', 'C', 'D']);
    assert_eq!(bag.take(2), 'D');
    assert_eq!(bag.take(0), 'A');
    assert_eq!(bag.bag, vec!['C']);
}

#[test]
fn a_draw_moves_tiles_out_of_the_bag() {
    let mut bag = Bag::new();
    let drawn = bag.draw(7);
    assert_eq!(drawn.len(), 7);
    assert_eq!(bag.bag.len(), 95);
    for k in 0..27 {
        let letter = tile_letter(k);
        assert_eq!(
            count_in(&bag.bag, letter) + count_in(&drawn, letter),
            letter_occurrence(letter)
        );
    }
    assert!(bag.draw(0).is_empty());
    assert_eq!(bag.bag.len(), 95);
}

#[test]
fn a_draw_can_empty_the_bag() {
    let mut bag = Bag { bag: vec!['Q', 'Q', 'Z'] };
    let mut drawn = bag.draw(3);
    drawn.sort();
    assert_eq!(drawn, vec!['Q', 'Q', 'Z']);
    assert!(bag.bag.is_empty());
    let mut single = Bag { bag: vec!['K'] };
    assert_eq!(single.draw(1), vec!['K']);
}

#[test]
fn valid_draw_fills_the_rack() {
    let mut bag = Bag::new();
    let mut rack = rack_from("QZ");
    bag.valid_draw(&mut rack, 7);
    assert_eq!(rack.total(), 7);
    assert_eq!(bag.bag.len(), 97);
    assert!(rack.count('Q') >= 1);
    assert!(rack.count('Z') >= 1);
    for k in 0..27 {
        let letter = tile_letter(k);
        let before = letter_occurrence(letter) + if letter == 'Q' || letter == 'Z' { 1 } else { 0 };
        assert_eq!(count_in(&bag.bag, letter) + rack.count(letter), before);
    }
    bag.valid_draw(&mut rack, 7);
    assert_eq!(rack.total(), 7);
    assert_eq!(bag.bag.len(), 97);
}

#[test]
fn valid_draw_takes_what_is_left() {
    let mut bag = Bag { bag: vec!['A', 'B', 'C'] };
    let mut rack = rack_from("EE");
    bag.valid_draw(&mut rack, 7);
    assert!(bag.bag.is_empty());
    assert_eq!(rack_to_string(&rack), "ABCEE");
    bag.valid_draw(&mut rack, 7);
    assert_eq!(rack_to_string(&rack), "ABCEE");
}

#[test]
fn discard_puts_the_rack_back() {
    let mut bag = Bag { bag: vec!['X'] };
    let mut rack = rack_from("?BAB");
    bag.discard(&mut rack);
    assert!(rack.is_empty());
    assert_eq!(bag.bag, vec!['X', 'A', 'B', 'B', '?']);
    bag.discard(&mut rack);
    assert_eq!(bag.bag.len(), 5);
}

#[test]
fn a_draw_and_a_discard_keep_the_tiles() {
    let mut bag = Bag::new();
    let mut rack = Rack::new();
    for _ in 0..5 {
        bag.valid_draw(&mut rack, 7);
        assert_eq!(rack.total(), 7);
        assert_eq!(bag.bag.len(), 95);
        bag.discard(&mut rack);
        assert_eq!(bag.bag.len(), 102);
        for k in 0..27 {
            let letter = tile_letter(k);
            assert_eq!(count_in(&bag.bag, letter), letter_occurrence(letter));
        }
    }
}

#[test]
fn an_empty_bag_and_an_empty_rack_stay_empty() {
    let mut bag = Bag { bag: Vec::new() };
    let mut rack = Rack::new();
    bag.valid_draw(&mut rack, 7);
    assert!(bag.bag.is_empty());
    assert!(rack.is_empty());
    assert!(bag.draw(0).is_empty());
    bag.discard(&mut rack);
    assert!(bag.bag.is_empty());
}

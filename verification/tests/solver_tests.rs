use scrabble_engine::gaddag::{Gaddag, ROOT};
use scrabble_engine::grid::{CrossTable, Grid, Square};
use scrabble_engine::rack::Rack;
use scrabble_engine::solver::{
    best_play, filter_left_parts, filter_valid_words, generate_left_parts, generate_right_parts,
    generate_solutions, handle_left_part, process_letter, reduce_rack, reversed, step, ValidWord,
    WordInfo,
};

fn solver_index(words: &[&str]) -> Gaddag {
    let list: Vec<String> = words.iter().map(|w| w.to_string()).collect();
    Gaddag::from_words(&list)
}

fn rack_of(tiles: &str) -> Rack {
    let mut rack = Rack::new();
    for tile in tiles.chars() {
        assert!(rack.add(tile));
    }
    rack
}

fn fresh_board(index: &Gaddag) -> Grid {
    let mut grid = Grid::new();
    grid.generate_grid();
    grid.update_anchors();
    grid.update_crosswords(index);
    grid
}

fn summary(plays: &[ValidWord]) -> Vec<(String, String, u64)> {
    plays.iter().map(|p| (p.position.clone(), p.word.clone(), p.score)).collect()
}

fn play_at(position: &str, word: &str, score: u64) -> (String, String, u64) {
    (position.to_string(), word.to_string(), score)
}

fn start(i: usize, j: usize, rack: Rack) -> WordInfo {
    WordInfo {
        position: (i, j),
        rack,
        prefix: String::new(),
        score: (0, 1, 0),
        letters_nb: 0,
        node: ROOT,
    }
}

/// Whether a play covers the cell `(row, col)` while reading in `direction`.
fn covers(play: &ValidWord, row: usize, col: usize, direction: usize) -> bool {
    let ((i, j), d) = Grid::ref_to_pos(&play.position).unwrap();
    let n = play.word.chars().count();
    if d != direction {
        false
    } else if d == 0 {
        i == row && j <= col && col < j + n
    } else {
        j == col && i <= row && row < i + n
    }
}

#[test]
fn cat_on_the_empty_board() {
    let index = solver_index(&["CAT"]);
    let grid = fresh_board(&index);
    let rack = rack_of("CAT");
    let plays = generate_solutions(&grid, &rack, &index);
    assert_eq!(
        summary(&plays),
        vec![
            play_at("H6", "CAT", 5),
            play_at("H7", "CAT", 5),
            play_at("H8", "CAT", 5),
            play_at("8F", "CAT", 5),
            play_at("8G", "CAT", 5),
            play_at("8H", "CAT", 5),
        ]
    );
    for play in &plays {
        assert_eq!(play.rack, Rack::new());
        assert!(covers(play, 7, 7, 0) || covers(play, 7, 7, 1));
    }
}

#[test]
fn cat_on_a_premium_center() {
    let index = solver_index(&["CAT"]);
    let mut grid = Grid::new();
    grid.squares[7][7] = Square::MCD;
    grid.update_anchors();
    grid.update_crosswords(&index);
    let plays = generate_solutions(&grid, &rack_of("CAT"), &index);
    assert_eq!(plays.len(), 6);
    for play in &plays {
        assert_eq!(play.word, "CAT");
        assert_eq!(play.score, (3 + 1 + 1) * 2);
    }
    grid.squares[7][7] = Square::LCT;
    let plays = generate_solutions(&grid, &rack_of("CAT"), &index);
    assert_eq!(
        summary(&plays),
        vec![
            play_at("H6", "CAT", 1 * 3 + 3 + 1),
            play_at("H7", "CAT", 1 * 3 + 3 + 1),
            play_at("H8", "CAT", 3 * 3 + 1 + 1),
            play_at("8F", "CAT", 1 * 3 + 3 + 1),
            play_at("8G", "CAT", 1 * 3 + 3 + 1),
            play_at("8H", "CAT", 3 * 3 + 1 + 1),
        ]
    );
}

#[test]
fn a_blank_stands_for_a_letter_and_scores_nothing() {
    let index = solver_index(&["AT"]);
    let grid = fresh_board(&index);
    let rack = rack_of("A?");
    let plays = generate_solutions(&grid, &rack, &index);
    assert_eq!(
        summary(&plays),
        vec![
            play_at("H7", "At", 1),
            play_at("H8", "At", 1),
            play_at("8G", "At", 1),
            play_at("8H", "At", 1),
        ]
    );
    for play in &plays {
        assert_eq!(play.rack, Rack::new());
    }
    // With a valuable letter in place of the T the blank still counts for nothing.
    let index = solver_index(&["AX"]);
    let grid = fresh_board(&index);
    let plays = generate_solutions(&grid, &rack, &index);
    assert!(!plays.is_empty());
    for play in &plays {
        assert_eq!(play.word, "Ax");
        assert_eq!(play.score, 1);
    }
    // Two ways to spell a word with a blank: either letter may be the blank.
    let index = solver_index(&["AX"]);
    let grid = fresh_board(&index);
    let plays = generate_solutions(&grid, &rack_of("AX?"), &index);
    let mut words: Vec<(String, u64)> = plays.iter().map(|p| (p.word.clone(), p.score)).collect();
    words.sort();
    words.dedup();
    assert_eq!(
        words,
        vec![("AX".to_string(), 11), ("Ax".to_string(), 1), ("aX".to_string(), 10)]
    );
}

#[test]
fn an_empty_table_closes_its_cell() {
    let index = solver_index(&["CAT", "AT", "TA", "ACT"]);
    let mut grid = Grid::new();
    grid.generate_grid();
    grid.play("CAT", 6, 7, 1, &index);
    // Above the C nothing fits: no word ends in CAT but CAT itself.
    assert!(grid.anchors[5][7]);
    assert_eq!(grid.crosswords[5][7], Some(CrossTable::new()));
    let rack = rack_of("CATS?");
    let plays = generate_solutions(&grid, &rack, &index);
    assert!(!plays.is_empty());
    for play in &plays {
        assert!(!covers(play, 5, 7, 0), "{:?}", play);
    }
    // Beside the A a T fits, so the row of the A is open.
    assert!(plays.iter().any(|p| covers(p, 7, 8, 0)));
}

#[test]
fn a_rack_without_the_letters_finds_nothing() {
    let index = solver_index(&["CAT"]);
    let grid = fresh_board(&index);
    assert!(generate_solutions(&grid, &rack_of("CA"), &index).is_empty());
    assert!(generate_solutions(&grid, &Rack::new(), &index).is_empty());
    assert!(generate_solutions(&grid, &rack_of("DOG"), &index).is_empty());
}

#[test]
fn an_empty_index_finds_nothing() {
    let index = Gaddag::new();
    let grid = fresh_board(&index);
    assert!(generate_solutions(&grid, &rack_of("CAT?"), &index).is_empty());
}

#[test]
fn anchors_that_were_not_derived_are_taken_as_they_stand() {
    let index = solver_index(&["CAT"]);
    let grid = Grid::new();
    // No cell is marked on the board itself; the transposed board gets its own anchors.
    let plays = generate_solutions(&grid, &rack_of("CAT"), &index);
    assert_eq!(
        summary(&plays),
        vec![play_at("8F", "CAT", 5), play_at("8G", "CAT", 5), play_at("8H", "CAT", 5)]
    );
}

#[test]
fn generation_gives_the_same_plays_each_time() {
    let index = solver_index(&["CAT", "AT", "TA", "ACT", "CATS", "SAT", "TACT"]);
    let mut grid = Grid::new();
    grid.generate_grid();
    grid.play("CAT", 7, 6, 0, &index);
    let rack = rack_of("SAT?C");
    let first = generate_solutions(&grid, &rack, &index);
    let second = generate_solutions(&grid, &rack, &index);
    assert!(!first.is_empty());
    assert_eq!(summary(&first), summary(&second));
    for (a, b) in first.iter().zip(second.iter()) {
        assert_eq!(a.rack, b.rack);
    }
}

#[test]
fn a_word_grows_from_letters_on_the_board() {
    let index = solver_index(&["CAT", "CATS", "SCAT"]);
    let mut grid = Grid::new();
    grid.play("CAT", 7, 6, 0, &index);
    let plays = generate_solutions(&grid, &rack_of("S"), &index);
    assert_eq!(summary(&plays), vec![play_at("H6", "SCAT", 6), play_at("H7", "CATS", 6)]);
}

#[test]
fn a_word_crosses_a_word_on_the_board() {
    let index = solver_index(&["AT", "TO"]);
    let mut grid = Grid::new();
    grid.play("AT", 7, 7, 0, &index);
    let plays = generate_solutions(&grid, &rack_of("O"), &index);
    // TO reads downwards from the T, and to the right below the A is no word.
    assert_eq!(summary(&plays), vec![play_at("9H", "TO", 2)]);
}

#[test]
fn a_word_beside_a_word_scores_the_words_it_completes() {
    let index = solver_index(&["AT", "TA"]);
    let mut grid = Grid::new();
    grid.play("AT", 7, 7, 0, &index);
    let plays = generate_solutions(&grid, &rack_of("TA"), &index);
    let found = summary(&plays);
    // TA below AT: T under A makes AT downwards, A under T makes TA downwards.
    assert!(found.contains(&play_at("I8", "TA", 2 + 2 + 2)));
    // AT above AT is no play: A over A makes no word.
    assert!(!found.contains(&play_at("G8", "AT", 6)));
    for play in &plays {
        assert!(play.word == "AT" || play.word == "TA", "{:?}", play);
    }
}

#[test]
fn seven_tiles_earn_the_bonus() {
    let index = solver_index(&["RETAINS"]);
    let grid = fresh_board(&index);
    let plays = generate_solutions(&grid, &rack_of("RETAINS"), &index);
    assert_eq!(plays.len(), 14);
    for play in &plays {
        assert_eq!(play.word, "RETAINS");
        assert!(play.score == 7 + 50 || play.score == 8 + 50, "{:?}", play);
    }
    // From the fifth column the word covers the doubling cell of the row.
    assert!(summary(&plays).contains(&play_at("H2", "RETAINS", 7 + 1 + 50)));
    assert!(summary(&plays).contains(&play_at("H5", "RETAINS", 7 + 50)));
}

#[test]
fn process_letter_places_one_tile() {
    let index = solver_index(&["CAT"]);
    let mut grid = Grid::new();
    grid.squares[7][7] = Square::LCD;
    grid.update_anchors();
    let branch = start(7, 7, rack_of("CAT"));
    let placed = process_letter(7, 7, &grid, &index, &branch, 'C', 'C').unwrap();
    assert_eq!(placed.position, (7, 7));
    assert_eq!(placed.prefix, "C");
    assert_eq!(placed.score, (6, 1, 0));
    assert_eq!(placed.letters_nb, 1);
    assert_eq!(placed.rack, rack_of("AT"));
    assert_eq!(Some(placed.node), index.child(ROOT, 'C'));
    assert!(process_letter(7, 7, &grid, &index, &branch, 'X', 'X').is_none());
    assert!(process_letter(7, 7, &grid, &index, &placed, 'A', 'A').is_none());
}

#[test]
fn process_letter_multiplies_the_word() {
    let index = solver_index(&["TA"]);
    let mut grid = Grid::new();
    grid.squares[3][4] = Square::MCT;
    grid.squares[3][3] = Square::MCD;
    let branch = start(3, 4, rack_of("AT"));
    let first = process_letter(3, 4, &grid, &index, &branch, 'A', 'A').unwrap();
    assert_eq!(first.score, (1, 3, 0));
    let second = process_letter(3, 3, &grid, &index, &first, 'T', 'T').unwrap();
    assert_eq!(second.score, (2, 6, 0));
    assert_eq!(second.position, (3, 3));
    assert_eq!(second.prefix, "AT");
    assert_eq!(second.letters_nb, 2);
    assert_eq!(second.rack, Rack::new());
}

#[test]
fn process_letter_places_a_blank_in_lower_case() {
    let index = solver_index(&["CAT"]);
    let mut grid = Grid::new();
    grid.squares[7][7] = Square::LCQ;
    let branch = start(7, 7, rack_of("?"));
    let placed = process_letter(7, 7, &grid, &index, &branch, '?', 'T').unwrap();
    assert_eq!(placed.prefix, "t");
    assert_eq!(placed.score, (0, 1, 0));
    assert_eq!(placed.rack, Rack::new());
    assert_eq!(Some(placed.node), index.child(ROOT, 'T'));
    assert!(process_letter(7, 7, &grid, &index, &branch, '?', 'X').is_none());
}

#[test]
fn process_letter_asks_the_cross_table() {
    let index = solver_index(&["AT", "TA"]);
    let mut grid = Grid::new();
    grid.play("A", 6, 7, 0, &index);
    // Below the A a T fits and scores 2; the blank scores 1 for the A above.
    let branch = start(7, 7, rack_of("AT?"));
    let t = process_letter(7, 7, &grid, &index, &branch, 'T', 'T').unwrap();
    assert_eq!(t.score, (1, 1, 2));
    assert!(process_letter(7, 7, &grid, &index, &branch, 'A', 'A').is_none());
    let blank = process_letter(7, 7, &grid, &index, &branch, '?', 'T').unwrap();
    assert_eq!(blank.score, (0, 1, 1));
    assert_eq!(blank.prefix, "t");
    assert!(process_letter(7, 7, &grid, &index, &branch, '?', 'A').is_none());
}

#[test]
fn step_tries_the_letters_then_the_blank() {
    let index = solver_index(&["CAT", "AT"]);
    let grid = fresh_board(&index);
    let branch = start(7, 7, rack_of("TAC?A"));
    let grown = step(7, 7, &grid, &index, &branch);
    let prefixes: Vec<&str> = grown.iter().map(|w| w.prefix.as_str()).collect();
    assert_eq!(prefixes, vec!["A", "C", "T", "a", "c", "t"]);
    assert_eq!(grown[0].rack, rack_of("TC?A"));
    assert_eq!(grown[3].rack, rack_of("TACA"));
    for branch in &grown {
        assert_eq!(branch.letters_nb, 1);
        assert_eq!(branch.position, (7, 7));
    }
    assert!(step(7, 7, &grid, &index, &start(7, 7, Rack::new())).is_empty());
    assert!(step(7, 7, &grid, &index, &start(7, 7, rack_of("XYZ"))).is_empty());
}

#[test]
fn left_parts_grow_over_empty_cells() {
    let index = solver_index(&["CAT"]);
    let grid = fresh_board(&index);
    let parts = generate_left_parts(7, 7, &grid, &rack_of("CAT"), &index);
    let found: Vec<(&str, (usize, usize))> =
        parts.iter().map(|w| (w.prefix.as_str(), w.position)).collect();
    assert_eq!(
        found,
        vec![
            ("", (7, 7)),
            ("A", (7, 7)),
            ("C", (7, 7)),
            ("T", (7, 7)),
            ("AC", (7, 6)),
            ("TA", (7, 6)),
            ("TAC", (7, 5)),
        ]
    );
}

#[test]
fn left_parts_stop_before_the_next_anchor() {
    let index = solver_index(&["ABCD"]);
    let mut grid = Grid::new();
    grid.anchors[7][7] = true;
    grid.anchors[7][5] = true;
    let parts = generate_left_parts(7, 7, &grid, &rack_of("ABCD"), &index);
    for part in &parts {
        assert!(part.position.1 >= 6, "{:?}", part);
        assert!(part.prefix.len() <= 2);
    }
    assert!(parts.iter().any(|w| w.prefix == "DC" && w.position == (7, 6)));
    let at_the_edge = generate_left_parts(7, 0, &grid, &rack_of("ABCD"), &index);
    for part in &at_the_edge {
        assert_eq!(part.position, (7, 0));
        assert!(part.prefix.len() <= 1);
    }
}

#[test]
fn left_parts_take_the_letters_of_the_board() {
    let index = solver_index(&["CAT", "CATS"]);
    let mut grid = Grid::new();
    grid.play("CAT", 7, 4, 0, &index);
    let parts = generate_left_parts(7, 7, &grid, &rack_of("ST"), &index);
    let found: Vec<(&str, (usize, usize), (u64, u64, u64), u8)> =
        parts.iter().map(|w| (w.prefix.as_str(), w.position, w.score, w.letters_nb)).collect();
    assert_eq!(found, vec![("STAC", (7, 4), (1 + 1 + 1 + 3, 1, 0), 1)]);
}

#[test]
fn handle_left_part_follows_the_board() {
    let index = solver_index(&["AT"]);
    let mut grid = Grid::new();
    grid.play("A", 7, 6, 0, &index);
    let on_anchor = step(7, 7, &grid, &index, &start(7, 7, rack_of("TX")));
    assert_eq!(on_anchor.len(), 1);
    let grown = handle_left_part(7, 7, &grid, &index, on_anchor);
    assert_eq!(grown.len(), 1);
    assert_eq!(grown[0].prefix, "TA");
    assert_eq!(grown[0].position, (7, 6));
    assert_eq!(grown[0].score, (2, 1, 0));
    assert_eq!(grown[0].letters_nb, 1);
    // A blank on the board is in lower case, and the index has no way along it.
    let mut other = Grid::new();
    other.play("a", 7, 6, 0, &index);
    let on_anchor = step(7, 7, &other, &index, &start(7, 7, rack_of("T")));
    assert_eq!(on_anchor.len(), 1);
    assert!(handle_left_part(7, 7, &other, &index, on_anchor).is_empty());
}

#[test]
fn filter_left_parts_keeps_what_starts_a_word() {
    let index = solver_index(&["CAT"]);
    let grid = fresh_board(&index);
    let parts = generate_left_parts(7, 7, &grid, &rack_of("CAT"), &index);
    let kept = filter_left_parts(parts, &index);
    let found: Vec<(&str, (usize, usize))> =
        kept.iter().map(|w| (w.prefix.as_str(), w.position)).collect();
    assert_eq!(found, vec![("C", (7, 7)), ("CA", (7, 6)), ("CAT", (7, 5))]);
    assert!(index.is_word(kept[2].node));
    assert!(!index.is_word(kept[0].node));
}

#[test]
fn right_parts_grow_to_the_edge() {
    let index = solver_index(&["CAT"]);
    let grid = fresh_board(&index);
    let parts = generate_left_parts(7, 7, &grid, &rack_of("CAT"), &index);
    let kept = filter_left_parts(parts, &index);
    let grown = generate_right_parts(7, 7, &grid, &index, kept);
    let found: Vec<(&str, (usize, usize))> =
        grown.iter().map(|w| (w.prefix.as_str(), w.position)).collect();
    assert_eq!(
        found,
        vec![
            ("C", (7, 7)),
            ("CA", (7, 6)),
            ("CAT", (7, 5)),
            ("CA", (7, 7)),
            ("CAT", (7, 6)),
            ("CAT", (7, 7)),
        ]
    );
}

#[test]
fn right_parts_run_over_letters_of_the_board() {
    let index = solver_index(&["CATS", "CAT"]);
    let mut grid = Grid::new();
    grid.play("AT", 7, 8, 0, &index);
    let parts = generate_left_parts(7, 7, &grid, &rack_of("CS"), &index);
    let kept = filter_left_parts(parts, &index);
    let grown = generate_right_parts(7, 7, &grid, &index, kept);
    let found: Vec<(&str, (u64, u64, u64), u8)> =
        grown.iter().map(|w| (w.prefix.as_str(), w.score, w.letters_nb)).collect();
    // The branch C cannot end before the A: it is listed from CAT on.
    assert_eq!(found, vec![("CAT", (5, 1, 0), 1), ("CATS", (6, 1, 0), 2)]);
    let words = filter_valid_words(grown, true, &index);
    assert_eq!(summary(&words), vec![play_at("H8", "CAT", 5), play_at("H8", "CATS", 6)]);
}

#[test]
fn right_parts_read_a_blank_on_the_board_as_its_letter() {
    let index = solver_index(&["CAT"]);
    let mut grid = Grid::new();
    grid.play("a", 7, 8, 0, &index);
    let plays = generate_solutions(&grid, &rack_of("CT"), &index);
    assert!(summary(&plays).contains(&play_at("H8", "CaT", 4)));
}

#[test]
fn filter_valid_words_computes_the_score() {
    let index = solver_index(&["AB"]);
    let end = index.follow_path(ROOT, "A!B").unwrap();
    let middle = index.follow_path(ROOT, "A!").unwrap();
    let branch = |node: usize, letters: u8| WordInfo {
        position: (2, 6),
        rack: rack_of("Q"),
        prefix: "ABABABAB".to_string(),
        score: (7, 6, 11),
        letters_nb: letters,
        node,
    };
    let words = filter_valid_words(
        vec![branch(end, 2), branch(middle, 2), branch(end, 7), branch(end, 8)],
        true,
        &index,
    );
    assert_eq!(
        summary(&words),
        vec![
            play_at("C7", "ABABABAB", 7 * 6 + 11),
            play_at("C7", "ABABABAB", 7 * 6 + 11 + 50),
            play_at("C7", "ABABABAB", 7 * 6 + 11 + 75),
        ]
    );
    assert_eq!(words[0].rack, rack_of("Q"));
    let down = filter_valid_words(vec![branch(end, 2)], false, &index);
    assert_eq!(summary(&down), vec![play_at("3G", "ABABABAB", 53)]);
    assert!(filter_valid_words(Vec::new(), true, &index).is_empty());
}

#[test]
fn reduce_rack_takes_one_tile() {
    let rack = rack_of("AAB?");
    assert_eq!(reduce_rack(&rack, 'A'), rack_of("AB?"));
    assert_eq!(reduce_rack(&rack, 'B'), rack_of("AA?"));
    assert_eq!(reduce_rack(&rack, '?'), rack_of("AAB"));
    assert_eq!(reduce_rack(&rack, 'C'), rack);
    assert_eq!(reduce_rack(&rack, 'a'), rack);
    assert_eq!(rack, rack_of("AAB?"));
}

#[test]
fn reversed_turns_text_around() {
    assert_eq!(reversed(""), "");
    assert_eq!(reversed("A"), "A");
    assert_eq!(reversed("TAc"), "cAT");
}

#[test]
fn best_play_is_the_first_of_the_highest() {
    let word = |score: u64| ValidWord {
        position: "H8".to_string(),
        rack: Rack::new(),
        word: "A".to_string(),
        score,
    };
    assert_eq!(best_play(&Vec::new()), None);
    assert_eq!(best_play(&vec![word(3)]), Some(0));
    assert_eq!(best_play(&vec![word(3), word(9), word(4), word(9), word(1)]), Some(1));
    assert_eq!(best_play(&vec![word(0), word(0)]), Some(0));
    assert_eq!(best_play(&vec![word(1), word(2), word(3)]), Some(2));
}

#[test]
fn the_best_play_can_be_made() {
    let index = solver_index(&["CAT", "CATS", "ACT", "AT", "TA", "SAT"]);
    let mut grid = fresh_board(&index);
    let rack = rack_of("CATS");
    let plays = generate_solutions(&grid, &rack, &index);
    let best = best_play(&plays).unwrap();
    assert_eq!(plays[best].word, "CATS");
    let ((i, j), direction) = Grid::ref_to_pos(&plays[best].position).unwrap();
    grid.play(&plays[best].word, i, j, direction, &index);
    assert_eq!(plays[best].rack, Rack::new());
    let mut letters = 0;
    for r in 0..15 {
        for c in 0..15 {
            if !grid.is_empty(r, c) {
                letters += 1;
            }
        }
    }
    assert_eq!(letters, 4);
    assert!(!grid.anchors[7][7]);
    let next = generate_solutions(&grid, &rack_of("AT"), &index);
    assert!(!next.is_empty());
}

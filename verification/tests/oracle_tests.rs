use scrabble_engine::constants::{bingo_bonus, letter_value, GRID_SIZE};
use scrabble_engine::gaddag::Gaddag;
use scrabble_engine::grid::{Grid, Square};
use scrabble_engine::rack::Rack;
use scrabble_engine::solver::generate_solutions;

type Cells = [[Square; GRID_SIZE]; GRID_SIZE];

fn oracle_index(words: &[&str]) -> Gaddag {
    let list: Vec<String> = words.iter().map(|w| w.to_string()).collect();
    Gaddag::from_words(&list)
}

fn oracle_rack(tiles: &str) -> Rack {
    let mut rack = Rack::new();
    for tile in tiles.chars() {
        assert!(rack.add(tile));
    }
    rack
}

fn letter_on(cells: &Cells, i: isize, j: isize) -> Option<char> {
    if i < 0 || j < 0 || i >= GRID_SIZE as isize || j >= GRID_SIZE as isize {
        return None;
    }
    match cells[i as usize][j as usize] {
        Square::Letter(c) => Some(c),
        _ => None,
    }
}

fn transposed(cells: &Cells) -> Cells {
    let mut turned = [[Square::Blank; GRID_SIZE]; GRID_SIZE];
    for i in 0..GRID_SIZE {
        for j in 0..GRID_SIZE {
            turned[j][i] = cells[i][j];
        }
    }
    turned
}

fn is_anchor(cells: &Cells, i: usize, j: usize) -> bool {
    let (i, j) = (i as isize, j as isize);
    if letter_on(cells, i, j).is_some() {
        return false;
    }
    let touches = letter_on(cells, i - 1, j).is_some()
        || letter_on(cells, i + 1, j).is_some()
        || letter_on(cells, i, j - 1).is_some()
        || letter_on(cells, i, j + 1).is_some();
    let empty = (0..GRID_SIZE).all(|r| (0..GRID_SIZE).all(|c| letter_on(cells, r as isize, c as isize).is_none()));
    touches || (empty && i == 7 && j == 7)
}

fn premiums(square: Square) -> (u64, u64) {
    match square {
        Square::LCD => (2, 1),
        Square::LCT => (3, 1),
        Square::LCQ => (4, 1),
        Square::MCD => (1, 2),
        Square::MCT => (1, 3),
        Square::MCQ => (1, 4),
        _ => (1, 1),
    }
}

/// The score of the word `text` laid on row `i` from column `c` on, if the
/// game allows it with the tiles of `rack`; `text` shows blanks in lower
/// case.
fn allowed(cells: &Cells, words: &[&str], rack: &str, i: usize, c: usize, text: &str) -> Option<u64> {
    let letters: Vec<char> = text.chars().collect();
    let n = letters.len();
    if n == 0 || c + n > GRID_SIZE {
        return None;
    }
    let row = i as isize;
    if letter_on(cells, row, c as isize - 1).is_some() || letter_on(cells, row, (c + n) as isize).is_some() {
        return None;
    }
    let upper: String = letters.iter().map(|ch| ch.to_ascii_uppercase()).collect();
    if !words.contains(&upper.as_str()) {
        return None;
    }
    let mut tiles: Vec<char> = rack.chars().collect();
    let mut flat = 0;
    let mut factor = 1;
    let mut crossed = 0;
    let mut placed = 0u8;
    let mut on_anchor = false;
    for (k, &ch) in letters.iter().enumerate() {
        let col = c + k;
        match letter_on(cells, row, col as isize) {
            Some(standing) => {
                if standing != ch {
                    return None;
                }
                flat += letter_value(standing);
            }
            None => {
                let tile = if ch.is_ascii_uppercase() { ch } else { '?' };
                let at = tiles.iter().position(|&t| t == tile)?;
                tiles.remove(at);
                if is_anchor(cells, i, col) {
                    on_anchor = true;
                }
                let (letter_factor, word_factor) = premiums(cells[i][col]);
                flat += letter_value(ch) * letter_factor;
                factor *= word_factor;
                placed += 1;
                let mut above = Vec::new();
                let mut r = row - 1;
                while let Some(l) = letter_on(cells, r, col as isize) {
                    above.push(l);
                    r -= 1;
                }
                let mut below = Vec::new();
                let mut r = row + 1;
                while let Some(l) = letter_on(cells, r, col as isize) {
                    below.push(l);
                    r += 1;
                }
                if !above.is_empty() || !below.is_empty() {
                    let mut down: String = above.iter().rev().collect();
                    down.push(ch.to_ascii_uppercase());
                    down.extend(below.iter());
                    if !words.contains(&down.as_str()) {
                        return None;
                    }
                    let around: u64 = above.iter().chain(below.iter()).map(|&l| letter_value(l)).sum();
                    crossed += (letter_value(ch) * letter_factor + around) * word_factor;
                }
            }
        }
    }
    if !on_anchor {
        return None;
    }
    Some(flat * factor + crossed + bingo_bonus(placed))
}

/// Every way to show some letters of `word` in lower case.
fn spellings(word: &str) -> Vec<String> {
    let letters: Vec<char> = word.chars().collect();
    let mut all = Vec::new();
    for mask in 0..(1u32 << letters.len()) {
        let text: String = letters
            .iter()
            .enumerate()
            .map(|(k, &l)| if mask & (1 << k) != 0 { l.to_ascii_lowercase() } else { l })
            .collect();
        all.push(text);
    }
    all
}

/// The reference of a word on row `i` from column `c` on: of the board
/// itself for a word that reads across, of the transposed board for a word
/// that reads downwards, whose rows are the columns of the board.
fn reference(i: usize, c: usize, across: bool) -> String {
    if across {
        format!("{}{}", (b'A' + i as u8) as char, c + 1)
    } else {
        format!("{}{}", i + 1, (b'A' + c as u8) as char)
    }
}

/// Every placement the game allows, found by trying every word at every
/// cell in both directions.
fn expected(cells: &Cells, words: &[&str], rack: &str) -> Vec<(String, String, u64)> {
    let mut found = Vec::new();
    let turned = transposed(cells);
    for (board, across) in [(cells, true), (&turned, false)] {
        for i in 0..GRID_SIZE {
            for c in 0..GRID_SIZE {
                for word in words {
                    for text in spellings(word) {
                        if let Some(score) = allowed(board, words, rack, i, c, &text) {
                            found.push((reference(i, c, across), text, score));
                        }
                    }
                }
            }
        }
    }
    found.sort();
    found
}

fn listed(grid: &Grid, index: &Gaddag, rack: &str) -> Vec<(String, String, u64)> {
    let plays = generate_solutions(grid, &oracle_rack(rack), index);
    let mut found: Vec<(String, String, u64)> =
        plays.iter().map(|p| (p.position.clone(), p.word.clone(), p.score)).collect();
    found.sort();
    found
}

#[test]
fn the_search_lists_what_the_game_allows_on_the_empty_board() {
    let words = ["CAT", "AT", "TA", "ACT", "CATS", "SAT", "TACT", "SCAT"];
    let index = oracle_index(&words);
    let mut grid = Grid::new();
    grid.generate_grid();
    grid.update_anchors();
    grid.update_crosswords(&index);
    for rack in ["CATS", "TAC?", "AT", "??", "SCATTAC", ""] {
        let found = listed(&grid, &index, rack);
        assert_eq!(found, expected(&grid.squares, &words, rack), "rack {:?}", rack);
    }
}

#[test]
fn the_search_lists_what_the_game_allows_around_words() {
    let words = ["CAT", "AT", "TA", "ACT", "CATS", "SAT", "TACT", "SCAT", "AS", "TAS", "ASS"];
    let index = oracle_index(&words);
    let mut grid = Grid::new();
    grid.generate_grid();
    grid.play("CAT", 7, 6, 0, &index);
    grid.play("ACT", 7, 7, 1, &index);
    for rack in ["SAT", "TS?", "CATSA", "?"] {
        let found = listed(&grid, &index, rack);
        let wanted = expected(&grid.squares, &words, rack);
        assert!(!wanted.is_empty());
        assert_eq!(found, wanted, "rack {:?}", rack);
    }
}

#[test]
fn the_search_lists_what_the_game_allows_at_the_edges() {
    let words = ["AB", "BA", "ABA", "BAB", "AA"];
    let index = oracle_index(&words);
    let mut grid = Grid::new();
    grid.generate_grid();
    grid.play("AB", 0, 0, 0, &index);
    grid.play("BA", 14, 13, 0, &index);
    grid.play("ABA", 12, 0, 1, &index);
    for rack in ["AB", "BBA?", "A"] {
        let found = listed(&grid, &index, rack);
        let wanted = expected(&grid.squares, &words, rack);
        assert!(!wanted.is_empty());
        assert_eq!(found, wanted, "rack {:?}", rack);
    }
}

#[test]
fn every_play_leaves_the_rack_without_its_tiles() {
    let words = ["CAT", "AT", "TA", "ACT", "CATS", "SAT"];
    let index = oracle_index(&words);
    let mut grid = Grid::new();
    grid.play("CAT", 7, 6, 0, &index);
    let rack = oracle_rack("SAT?T");
    let plays = generate_solutions(&grid, &rack, &index);
    assert!(!plays.is_empty());
    for play in &plays {
        let ((i, j), direction) = Grid::ref_to_pos(&play.position).unwrap();
        let mut left = rack;
        for (k, ch) in play.word.chars().enumerate() {
            let (r, c) = if direction == 0 { (i, j + k) } else { (i + k, j) };
            if grid.is_empty(r, c) {
                let tile = if ch.is_ascii_uppercase() { ch } else { '?' };
                assert!(left.count(tile) > 0, "{:?}", play);
                left = left.without(tile);
            } else {
                assert_eq!(grid.squares[r][c], Square::Letter(ch));
            }
        }
        assert_eq!(play.rack, left, "{:?}", play);
        assert!(play.rack.total() < rack.total());
    }
}

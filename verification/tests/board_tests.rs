use scrabble_engine::constants::{
    alphabet_letter, bingo_bonus, is_letter, letter_occurrence, letter_value, tile_index,
    tile_letter, to_lower, to_upper, CENTER, GRID_SIZE,
};
use scrabble_engine::gaddag::Gaddag;
use scrabble_engine::grid::{bonus_cells, CrossTable, Grid, Square};

fn board_index(words: &[&str]) -> Gaddag {
    let list: Vec<String> = words.iter().map(|w| w.to_string()).collect();
    Gaddag::from_words(&list)
}

fn anchors_of(grid: &Grid) -> Vec<(usize, usize)> {
    let mut found = Vec::new();
    for i in 0..GRID_SIZE {
        for j in 0..GRID_SIZE {
            if grid.anchors[i][j] {
                found.push((i, j));
            }
        }
    }
    found
}

#[test]
fn letter_values_are_those_of_the_game() {
    let expected = [
        ('A', 1), ('B', 3), ('C', 3), ('D', 2), ('E', 1), ('F', 4), ('G', 2), ('H', 4), ('I', 1),
        ('J', 8), ('K', 10), ('L', 1), ('M', 2), ('N', 1), ('O', 1), ('P', 3), ('Q', 8), ('R', 1),
        ('S', 1), ('T', 1), ('U', 1), ('V', 4), ('W', 10), ('X', 10), ('Y', 10), ('Z', 10),
    ];
    for (letter, value) in expected {
        assert_eq!(letter_value(letter), value);
    }
    assert_eq!(letter_value('?'), 0);
    assert_eq!(letter_value('a'), 0);
    assert_eq!(letter_value('!'), 0);
}

#[test]
fn letter_occurrences_are_those_of_the_game() {
    let expected = [
        ('A', 9), ('B', 2), ('C', 2), ('D', 3), ('E', 15), ('F', 2), ('G', 2), ('H', 2), ('I', 8),
        ('J', 1), ('K', 1), ('L', 5), ('M', 3), ('N', 6), ('O', 6), ('P', 2), ('Q', 1), ('R', 6),
        ('S', 6), ('T', 6), ('U', 6), ('V', 2), ('W', 1), ('X', 1), ('Y', 1), ('Z', 1), ('?', 2),
    ];
    let mut total = 0;
    for (letter, count) in expected {
        assert_eq!(letter_occurrence(letter), count);
        total += count;
    }
    assert_eq!(total, 102);
    assert_eq!(letter_occurrence('a'), 0);
}

#[test]
fn the_bonus_starts_at_seven_tiles() {
    for n in 0..7u8 {
        assert_eq!(bingo_bonus(n), 0);
    }
    assert_eq!(bingo_bonus(7), 50);
    assert_eq!(bingo_bonus(8), 75);
    assert_eq!(bingo_bonus(9), 100);
    assert_eq!(bingo_bonus(10), 125);
    assert_eq!(bingo_bonus(11), 150);
    assert_eq!(bingo_bonus(12), 175);
    assert_eq!(bingo_bonus(13), 200);
    assert_eq!(bingo_bonus(14), 225);
    assert_eq!(bingo_bonus(15), 250);
    assert_eq!(bingo_bonus(16), 0);
    assert_eq!(bingo_bonus(255), 0);
}

#[test]
fn tiles_have_their_kinds() {
    assert_eq!(tile_index('A'), Some(0));
    assert_eq!(tile_index('Z'), Some(25));
    assert_eq!(tile_index('?'), Some(26));
    assert_eq!(tile_index('a'), None);
    assert_eq!(tile_index('!'), None);
    for k in 0..27 {
        assert_eq!(tile_index(tile_letter(k)), Some(k));
    }
    assert_eq!(alphabet_letter(0), 'A');
    assert_eq!(alphabet_letter(25), 'Z');
    assert!(is_letter('M'));
    assert!(!is_letter('m'));
    assert!(!is_letter('?'));
    assert_eq!(to_upper('q'), 'Q');
    assert_eq!(to_upper('Q'), 'Q');
    assert_eq!(to_upper('?'), '?');
    assert_eq!(to_lower('Q'), 'q');
    assert_eq!(to_lower('q'), 'q');
    assert_eq!(to_lower('!'), '!');
}

#[test]
fn a_new_board_is_blank() {
    let grid = Grid::new();
    for i in 0..GRID_SIZE {
        for j in 0..GRID_SIZE {
            assert_eq!(grid.squares[i][j], Square::Blank);
            assert!(!grid.anchors[i][j]);
            assert!(grid.crosswords[i][j].is_none());
            assert!(grid.is_empty(i, j));
            assert_eq!(grid.get_square_multiplier(i, j), (1, 1));
        }
    }
}

#[test]
fn off_the_board_is_empty() {
    let mut grid = Grid::new();
    grid.squares[14][14] = Square::Letter('A');
    assert!(!grid.is_empty(14, 14));
    assert!(grid.is_empty(15, 14));
    assert!(grid.is_empty(14, 15));
    assert!(grid.is_empty(usize::MAX, 0));
}

#[test]
fn the_empty_board_has_the_center_as_its_only_anchor() {
    let mut grid = Grid::new();
    grid.update_anchors();
    assert_eq!(anchors_of(&grid), vec![(CENTER, CENTER)]);
    grid.generate_grid();
    grid.update_anchors();
    assert_eq!(anchors_of(&grid), vec![(7, 7)]);
}

#[test]
fn a_single_tile_makes_its_neighbors_anchors() {
    let index = Gaddag::new();
    let mut grid = Grid::new();
    grid.update_anchors();
    grid.play("A", 4, 9, 0, &index);
    assert_eq!(anchors_of(&grid), vec![(3, 9), (4, 8), (4, 10), (5, 9)]);
    assert!(!grid.anchors[4][9]);
    assert_eq!(grid.squares[4][9], Square::Letter('A'));
}

#[test]
fn a_tile_in_a_corner_has_two_anchors() {
    let index = Gaddag::new();
    let mut grid = Grid::new();
    grid.play("A", 0, 0, 1, &index);
    assert_eq!(anchors_of(&grid), vec![(0, 1), (1, 0)]);
    let mut other = Grid::new();
    other.play("A", 14, 14, 0, &index);
    assert_eq!(anchors_of(&other), vec![(13, 14), (14, 13)]);
}

#[test]
fn a_tile_on_the_center_takes_the_anchor_away_from_it() {
    let index = Gaddag::new();
    let mut grid = Grid::new();
    grid.update_anchors();
    assert!(grid.anchors[7][7]);
    grid.play("A", 7, 7, 0, &index);
    assert!(!grid.anchors[7][7]);
    assert_eq!(anchors_of(&grid), vec![(6, 7), (7, 6), (7, 8), (8, 7)]);
}

#[test]
fn anchors_surround_a_word() {
    let index = Gaddag::new();
    let mut grid = Grid::new();
    grid.play("CAT", 7, 6, 0, &index);
    assert_eq!(
        anchors_of(&grid),
        vec![(6, 6), (6, 7), (6, 8), (7, 5), (7, 9), (8, 6), (8, 7), (8, 8)]
    );
}

#[test]
fn premiums_mirror_into_the_four_quadrants() {
    let mut grid = Grid::new();
    grid.generate_grid();
    let kinds = [Square::LCD, Square::LCT, Square::LCQ, Square::MCD, Square::MCT, Square::MCQ];
    let n = GRID_SIZE - 1;
    let mut placed = 0;
    for kind in kinds {
        for (x, y) in bonus_cells(kind) {
            assert_eq!(grid.squares[x][y], kind);
            assert_eq!(grid.squares[x][n - y], kind);
            assert_eq!(grid.squares[n - x][y], kind);
            assert_eq!(grid.squares[n - x][n - y], kind);
            placed += 1;
        }
    }
    assert_eq!(placed, 17);
    assert_eq!(grid.squares[7][7], Square::Blank);
    assert_eq!(grid.squares[0][0], Square::MCT);
    assert_eq!(grid.squares[14][14], Square::MCT);
    assert_eq!(grid.squares[0][14], Square::MCT);
    assert_eq!(grid.squares[7][14], Square::MCT);
    assert_eq!(grid.squares[0][3], Square::LCD);
    assert_eq!(grid.squares[0][11], Square::LCD);
    assert_eq!(grid.squares[14][3], Square::LCD);
    assert_eq!(grid.squares[9][9], Square::LCT);
    assert_eq!(grid.squares[10][10], Square::MCD);
    assert_eq!(grid.squares[0][1], Square::Blank);
}

#[test]
fn premiums_are_counted_cell_by_cell() {
    let mut grid = Grid::new();
    grid.generate_grid();
    let mut counts = [0usize; 5];
    for i in 0..GRID_SIZE {
        for j in 0..GRID_SIZE {
            match grid.squares[i][j] {
                Square::Blank => counts[0] += 1,
                Square::LCD => counts[1] += 1,
                Square::LCT => counts[2] += 1,
                Square::MCD => counts[3] += 1,
                Square::MCT => counts[4] += 1,
                other => panic!("unexpected square {:?}", other),
            }
        }
    }
    assert_eq!(counts, [225 - 24 - 12 - 16 - 8, 24, 12, 16, 8]);
}

#[test]
fn bonus_cells_are_given_for_one_quadrant() {
    assert_eq!(bonus_cells(Square::LCD), vec![(0, 3), (2, 6), (3, 0), (3, 7), (6, 2), (6, 6), (7, 3)]);
    assert_eq!(bonus_cells(Square::LCT), vec![(1, 5), (5, 1), (5, 5)]);
    assert_eq!(bonus_cells(Square::LCQ), vec![]);
    assert_eq!(bonus_cells(Square::MCD), vec![(1, 1), (2, 2), (3, 3), (4, 4)]);
    assert_eq!(bonus_cells(Square::MCT), vec![(0, 0), (0, 7), (7, 0)]);
    assert_eq!(bonus_cells(Square::MCQ), vec![]);
    assert_eq!(bonus_cells(Square::Blank), vec![]);
}

#[test]
fn set_bonus_writes_the_four_images() {
    let mut grid = Grid::new();
    grid.set_bonus(Square::MCQ, &[(1, 2), (7, 7)]);
    let mut found = Vec::new();
    for i in 0..GRID_SIZE {
        for j in 0..GRID_SIZE {
            if grid.squares[i][j] == Square::MCQ {
                found.push((i, j));
            }
        }
    }
    assert_eq!(found, vec![(1, 2), (1, 12), (7, 7), (13, 2), (13, 12)]);
}

#[test]
fn multipliers_follow_the_square() {
    let mut grid = Grid::new();
    grid.squares[0][0] = Square::Blank;
    grid.squares[0][1] = Square::LCD;
    grid.squares[0][2] = Square::LCT;
    grid.squares[0][3] = Square::LCQ;
    grid.squares[0][4] = Square::MCD;
    grid.squares[0][5] = Square::MCT;
    grid.squares[0][6] = Square::MCQ;
    grid.squares[0][7] = Square::Letter('Z');
    assert_eq!(grid.get_square_multiplier(0, 0), (1, 1));
    assert_eq!(grid.get_square_multiplier(0, 1), (2, 1));
    assert_eq!(grid.get_square_multiplier(0, 2), (3, 1));
    assert_eq!(grid.get_square_multiplier(0, 3), (4, 1));
    assert_eq!(grid.get_square_multiplier(0, 4), (1, 2));
    assert_eq!(grid.get_square_multiplier(0, 5), (1, 3));
    assert_eq!(grid.get_square_multiplier(0, 6), (1, 4));
    assert_eq!(grid.get_square_multiplier(0, 7), (1, 1));
}

#[test]
fn play_writes_to_the_right_or_downwards() {
    let index = Gaddag::new();
    let mut grid = Grid::new();
    grid.play("CAT", 2, 12, 0, &index);
    assert_eq!(grid.squares[2][12], Square::Letter('C'));
    assert_eq!(grid.squares[2][13], Square::Letter('A'));
    assert_eq!(grid.squares[2][14], Square::Letter('T'));
    grid.play("TOp", 2, 14, 1, &index);
    assert_eq!(grid.squares[2][14], Square::Letter('T'));
    assert_eq!(grid.squares[3][14], Square::Letter('O'));
    assert_eq!(grid.squares[4][14], Square::Letter('p'));
    let mut letters = 0;
    for i in 0..GRID_SIZE {
        for j in 0..GRID_SIZE {
            if !grid.is_empty(i, j) {
                letters += 1;
            }
        }
    }
    assert_eq!(letters, 5);
}

#[test]
fn the_empty_word_changes_no_square() {
    let index = Gaddag::new();
    let mut grid = Grid::new();
    grid.play("", 20, 20, 0, &index);
    assert_eq!(anchors_of(&grid), vec![(7, 7)]);
    for i in 0..GRID_SIZE {
        for j in 0..GRID_SIZE {
            assert!(grid.is_empty(i, j));
        }
    }
}

#[test]
fn the_transposed_board_exchanges_rows_and_columns() {
    let index = board_index(&["CAT"]);
    let mut grid = Grid::new();
    grid.generate_grid();
    grid.play("CAT", 3, 9, 0, &index);
    let transposed = grid.transpose_grid(&index);
    for i in 0..GRID_SIZE {
        for j in 0..GRID_SIZE {
            assert_eq!(transposed.squares[j][i], grid.squares[i][j]);
            assert_eq!(transposed.anchors[j][i], grid.anchors[i][j]);
        }
    }
    assert_eq!(transposed.squares[9][3], Square::Letter('C'));
    assert_eq!(transposed.squares[11][3], Square::Letter('T'));
    assert!(grid.crosswords[2][9].is_some());
    assert!(grid.crosswords[3][8].is_none());
    assert!(transposed.crosswords[8][3].is_some());
    assert!(transposed.crosswords[9][2].is_none());
}

#[test]
fn adj_reads_away_from_the_cell() {
    let index = Gaddag::new();
    let mut grid = Grid::new();
    grid.play("QUIz", 2, 5, 1, &index);
    grid.play("AB", 7, 5, 1, &index);
    let (up, down, value) = grid.adj(6, 5);
    assert_eq!(up, vec!['z', 'I', 'U', 'Q']);
    assert_eq!(down, vec!['A', 'B']);
    assert_eq!(value, 8 + 1 + 1 + 0 + 1 + 3);
    let (up, down, value) = grid.adj(6, 6);
    assert!(up.is_empty());
    assert!(down.is_empty());
    assert_eq!(value, 0);
    let (up, down, value) = grid.adj(1, 5);
    assert!(up.is_empty());
    assert_eq!(down, vec!['Q', 'U', 'I', 'z']);
    assert_eq!(value, 10);
    let (up, down, value) = grid.adj(9, 5);
    assert_eq!(up, vec!['B', 'A']);
    assert!(down.is_empty());
    assert_eq!(value, 4);
}

#[test]
fn a_cell_without_letters_above_or_below_has_no_table() {
    let index = board_index(&["CAT", "AT", "TA"]);
    let mut grid = Grid::new();
    grid.play("CAT", 7, 6, 0, &index);
    assert!(grid.anchors[7][5]);
    assert!(grid.crosswords[7][5].is_none());
    assert!(grid.anchors[7][9]);
    assert!(grid.crosswords[7][9].is_none());
    assert!(grid.crosswords[7][6].is_none());
    assert!(grid.crosswords[0][0].is_none());
}

#[test]
fn a_table_holds_the_letters_that_fit() {
    let index = board_index(&["CAT", "AT", "TA", "TO", "SO"]);
    let mut grid = Grid::new();
    grid.play("CAT", 7, 6, 0, &index);
    // Above the A of CAT: a letter L fits if L followed by A is a word.
    let above = grid.crosswords[6][7].unwrap();
    assert_eq!(above.get('T'), Some(2));
    assert_eq!(above.get('?'), Some(1));
    for k in 0..26 {
        let letter = alphabet_letter(k);
        if letter != 'T' {
            assert_eq!(above.get(letter), None);
        }
    }
    // Below the T of CAT: T followed by L is a word for A and O.
    let below = grid.crosswords[8][8].unwrap();
    assert_eq!(below.get('A'), Some(2));
    assert_eq!(below.get('O'), Some(2));
    assert_eq!(below.get('?'), Some(1));
    assert_eq!(below.get('S'), None);
    // Below the C of CAT nothing fits: the table is there, and empty.
    let under_c = grid.crosswords[8][6].unwrap();
    assert!(under_c.is_empty());
    assert_eq!(under_c.get('?'), None);
    assert_eq!(under_c, CrossTable::new());
}

#[test]
fn a_table_scores_with_the_premiums_of_its_cell() {
    let index = board_index(&["AT", "AX"]);
    let mut grid = Grid::new();
    grid.squares[6][7] = Square::LCT;
    grid.squares[8][7] = Square::MCD;
    grid.squares[8][8] = Square::LCQ;
    grid.play("A", 7, 7, 0, &index);
    grid.play("A", 7, 8, 0, &index);
    // Below an A: T and X fit.
    let doubled = grid.crosswords[8][7].unwrap();
    assert_eq!(doubled.get('T'), Some((1 + 1) * 2));
    assert_eq!(doubled.get('X'), Some((10 + 1) * 2));
    assert_eq!(doubled.get('?'), Some(1 * 2));
    let quadrupled = grid.crosswords[8][8].unwrap();
    assert_eq!(quadrupled.get('T'), Some(1 * 4 + 1));
    assert_eq!(quadrupled.get('X'), Some(10 * 4 + 1));
    assert_eq!(quadrupled.get('?'), Some(1));
    // Above an A nothing fits.
    assert!(grid.crosswords[6][7].unwrap().is_empty());
}

#[test]
fn a_blank_on_the_board_fits_no_word() {
    let index = board_index(&["AT"]);
    let mut grid = Grid::new();
    grid.play("a", 7, 7, 0, &index);
    assert_eq!(grid.squares[7][7], Square::Letter('a'));
    assert!(grid.crosswords[8][7].unwrap().is_empty());
}

#[test]
fn cross_table_of_one_cell() {
    let index = board_index(&["AT"]);
    let mut grid = Grid::new();
    grid.squares[7][7] = Square::Letter('A');
    assert_eq!(grid.cross_table(&index, 8, 7), None);
    grid.update_anchors();
    let table = grid.cross_table(&index, 8, 7).unwrap();
    assert_eq!(table.get('T'), Some(2));
    assert_eq!(grid.cross_table(&index, 7, 8), None);
    assert!(grid.crosswords[8][7].is_none());
    grid.update_crosswords(&index);
    assert_eq!(grid.crosswords[8][7], Some(table));
}

#[test]
fn references_name_row_and_column() {
    assert_eq!(Grid::pos_to_ref((7, 7), true), "H8");
    assert_eq!(Grid::pos_to_ref((0, 0), true), "A1");
    assert_eq!(Grid::pos_to_ref((14, 14), true), "O15");
    assert_eq!(Grid::pos_to_ref((0, 9), true), "A10");
    assert_eq!(Grid::pos_to_ref((3, 8), true), "D9");
    assert_eq!(Grid::pos_to_ref((7, 5), false), "8F");
    assert_eq!(Grid::pos_to_ref((0, 14), false), "1O");
    assert_eq!(Grid::pos_to_ref((14, 0), false), "15A");
    assert_eq!(Grid::pos_to_ref((9, 2), false), "10C");
}

#[test]
fn references_are_read_back() {
    assert_eq!(Grid::ref_to_pos("H8"), Some(((7, 7), 0)));
    assert_eq!(Grid::ref_to_pos("A1"), Some(((0, 0), 0)));
    assert_eq!(Grid::ref_to_pos("O15"), Some(((14, 14), 0)));
    assert_eq!(Grid::ref_to_pos("A10"), Some(((0, 9), 0)));
    assert_eq!(Grid::ref_to_pos("8F"), Some(((5, 7), 1)));
    assert_eq!(Grid::ref_to_pos("15A"), Some(((0, 14), 1)));
    assert_eq!(Grid::ref_to_pos("10C"), Some(((2, 9), 1)));
    for row in 0..GRID_SIZE {
        for col in 0..GRID_SIZE {
            let across = Grid::pos_to_ref((row, col), true);
            assert_eq!(Grid::ref_to_pos(&across), Some(((row, col), 0)));
            let down = Grid::pos_to_ref((col, row), false);
            assert_eq!(Grid::ref_to_pos(&down), Some(((row, col), 1)));
        }
    }
}

#[test]
fn what_is_no_reference_is_refused() {
    for text in ["", "H", "8", "H0", "0H", "H16", "16H", "Q1", "1Q", "h8", "H08", "HH", "88", "H8 ", "H1O", "A100", "H-1"] {
        assert_eq!(Grid::ref_to_pos(text), None, "{:?}", text);
    }
}

use scrabble_engine::display::{push_text, table_mark, Section};
use scrabble_engine::gaddag::Gaddag;
use scrabble_engine::grid::{CrossTable, Grid};

fn display_index(words: &[&str]) -> Gaddag {
    let list: Vec<String> = words.iter().map(|w| w.to_string()).collect();
    Gaddag::from_words(&list)
}

fn lines_of(text: &str) -> Vec<&str> {
    text.split('\n').collect()
}

#[test]
fn a_new_board_shows_dots() {
    let grid = Grid::new();
    let text = grid.render();
    let lines = lines_of(&text);
    let dots = ". ".repeat(15);
    assert_eq!(lines.len(), 3 * 15 + 3 + 2 + 1);
    assert_eq!(lines[0], "Grid:");
    for row in 1..16 {
        assert_eq!(lines[row], dots);
    }
    assert_eq!(lines[16], "");
    assert_eq!(lines[17], "Anchors:");
    for row in 18..33 {
        assert_eq!(lines[row], dots);
    }
    assert_eq!(lines[33], "");
    assert_eq!(lines[34], "Crosswords:");
    for row in 35..50 {
        assert_eq!(lines[row], dots);
    }
    assert_eq!(lines[50], "");
    assert!(text.ends_with(". \n"));
}

#[test]
fn a_board_shows_letters_anchors_and_tables() {
    let index = display_index(&["CAT", "AT", "TA", "TO"]);
    let mut grid = Grid::new();
    grid.generate_grid();
    grid.play("CAt", 7, 6, 0, &index);
    let text = grid.render();
    let lines = lines_of(&text);
    assert_eq!(lines[1 + 7], ". . . . . . C A t . . . . . . ");
    assert_eq!(lines[1 + 6], ". ".repeat(15));
    assert_eq!(lines[18 + 6], ". . . . . . x x x . . . . . . ");
    assert_eq!(lines[18 + 7], ". . . . . x . . . x . . . . . ");
    assert_eq!(lines[18 + 8], ". . . . . . x x x . . . . . . ");
    assert_eq!(lines[18 + 5], ". ".repeat(15));
    // Above the A a T fits; above the C and above the blank nothing does.
    assert_eq!(lines[35 + 6], ". . . . . . / T / . . . . . . ");
    assert_eq!(lines[35 + 7], ". ".repeat(15));
    // Below the A a T fits as well.
    assert_eq!(lines[35 + 8], ". . . . . . / T / . . . . . . ");
}

#[test]
fn a_section_is_appended() {
    let mut grid = Grid::new();
    grid.update_anchors();
    let mut text = String::from("before\n");
    grid.render_section(Section::Anchors, &mut text);
    let lines = lines_of(&text);
    assert_eq!(lines[0], "before");
    assert_eq!(lines[1 + 7], ". . . . . . . x . . . . . . . ");
    assert_eq!(lines.len(), 17);
    assert_eq!(grid.mark(Section::Anchors, 7, 7), 'x');
    assert_eq!(grid.mark(Section::Anchors, 7, 8), '.');
    assert_eq!(grid.mark(Section::Letters, 7, 7), '.');
    assert_eq!(grid.mark(Section::Tables, 7, 7), '.');
}

#[test]
fn a_table_shows_its_first_tile() {
    assert_eq!(table_mark(&None), '.');
    let mut table = CrossTable::new();
    assert_eq!(table_mark(&Some(table)), '/');
    table.scores[26] = Some(3);
    assert_eq!(table_mark(&Some(table)), '?');
    table.scores[19] = Some(2);
    assert_eq!(table_mark(&Some(table)), 'T');
    table.scores[0] = Some(1);
    assert_eq!(table_mark(&Some(table)), 'A');
}

#[test]
fn push_text_appends_characters() {
    let mut text = String::from("ab");
    push_text(&mut text, &['c', 'd']);
    assert_eq!(text, "abcd");
    push_text(&mut text, &[]);
    assert_eq!(text, "abcd");
}

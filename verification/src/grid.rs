//! The board: what stands on each cell, which empty cells a new word may
//! pass through (the anchors), and, for each anchor with letters above or
//! below it, which letters fit between them and what the word read downwards
//! would score (the cross tables).

use crate::constants::{
    alphabet_letter, letter_value, spec_alphabet_letter, spec_is_letter, spec_letter_value,
    spec_tile_index, tile_index, ALPHABET_SIZE, CENTER, GRID_SIZE, MAX_LETTER_VALUE, SEPARATOR,
    WILDCARD,
};
use crate::gaddag::Gaddag;
use crate::text::{char_at, str_chars, string_push};
use vstd::prelude::*;

verus! {

/// What stands on a cell: nothing, a premium that multiplies the letter
/// placed on it by 2, 3 or 4 (`LCD`, `LCT`, `LCQ`), a premium that multiplies
/// the word by 2, 3 or 4 (`MCD`, `MCT`, `MCQ`), or a letter. A letter in lower
/// case is a blank that was played for that letter.
#[derive(Debug, Clone, Copy, PartialEq, Eq)]
pub enum Square {
    Blank,
    LCD,
    LCT,
    LCQ,
    MCD,
    MCT,
    MCQ,
    Letter(char),
}

/// The letters that fit on one cell, each with the score of the word it
/// completes downwards. There is one entry for each kind of tile.
#[derive(Debug, Clone, Copy, PartialEq, Eq)]
pub struct CrossTable {
    pub scores: [Option<u32>; 27],
}

impl View for CrossTable {
    type V = Map<char, nat>;

    /// The letters of the table, each with its score.
    open spec fn view(&self) -> Map<char, nat> {
        Map::new(|c: char| self.spec_get(c) is Some, |c: char| self.spec_get(c)->0 as nat)
    }
}

impl CrossTable {
    /// The score recorded for `letter`, if it is in the table.
    pub open spec fn spec_get(&self, letter: char) -> Option<u32> {
        match spec_tile_index(letter) {
            Some(k) => self.scores[k],
            None => None,
        }
    }

    /// The table without any letter.
    pub fn new() -> (table: CrossTable)
        ensures
            forall|k: int| 0 <= k < 27 ==> table.scores[k] is None,
            forall|c: char| table.spec_get(c) is None,
            table@ == Map::<char, nat>::empty(),
    {
        let table = CrossTable { scores: [None; 27] };
        proof {
            assert(table@ =~= Map::<char, nat>::empty());
        }
        table
    }

    /// The score recorded for `letter`, if it is in the table.
    pub fn get(&self, letter: char) -> (r: Option<u32>)
        ensures
            r == self.spec_get(letter),
            r is Some == self@.dom().contains(letter),
            r matches Some(score) ==> self@[letter] == score,
    {
        match tile_index(letter) {
            Some(k) => self.scores[k],
            None => None,
        }
    }

    /// Whether no letter is in the table.
    pub fn is_empty(&self) -> (b: bool)
        ensures
            b == (forall|c: char| self.spec_get(c) is None),
            b == (self@ == Map::<char, nat>::empty()),
    {
        let mut k: usize = 0;
        while k < 27
            invariant
                k <= 27,
                forall|m: int| 0 <= m < k ==> self.scores[m] is None,
            decreases 27 - k,
        {
            if self.scores[k].is_some() {
                proof {
                    crate::constants::lemma_tile_kinds(k as int);
                    let c = crate::constants::spec_tile_letter(k as int);
                    assert(self.spec_get(c) is Some);
                    assert(self@.dom().contains(c));
                }
                return false;
            }
            k = k + 1;
        }
        proof {
            assert(self@ =~= Map::<char, nat>::empty());
        }
        true
    }
}

/// The board with what is derived from it.
pub struct Grid {
    pub squares: [[Square; 15]; 15],
    pub anchors: [[bool; 15]; 15],
    pub crosswords: [[Option<CrossTable>; 15]; 15],
}

/// What a sequence of letters is worth, premiums aside.
pub open spec fn spec_letters_value(letters: Seq<char>) -> nat
    decreases letters.len(),
{
    if letters.len() == 0 {
        0
    } else {
        spec_letters_value(letters.drop_last()) + spec_letter_value(letters.last())
    }
}

/// The sequence that the index must store for `letter` to fit between the
/// letters `up` above a cell and the letters `down` below it, both read away
/// from the cell.
pub open spec fn spec_cross_path(letter: char, up: Seq<char>, down: Seq<char>) -> Seq<char> {
    seq![letter] + up + seq![SEPARATOR] + down
}

/// The factor by which a square multiplies the letter placed on it.
pub open spec fn spec_letter_multiplier(square: Square) -> nat {
    match square {
        Square::LCD => 2,
        Square::LCT => 3,
        Square::LCQ => 4,
        _ => 1,
    }
}

/// The factor by which a square multiplies a word placed over it.
pub open spec fn spec_word_multiplier(square: Square) -> nat {
    match square {
        Square::MCD => 2,
        Square::MCT => 3,
        Square::MCQ => 4,
        _ => 1,
    }
}

/// Whether `(i, j)` is `cell` or one of its three images under the
/// reflections of the board.
pub open spec fn spec_mirrors(cell: (usize, usize), i: int, j: int) -> bool {
    (i == cell.0 || i == GRID_SIZE - 1 - cell.0) && (j == cell.1 || j == GRID_SIZE - 1 - cell.1)
}

/// Whether `(i, j)` is one of `cells` or an image of one of them.
pub open spec fn spec_in_mirrors(cells: Seq<(usize, usize)>, i: int, j: int) -> bool {
    exists|k: int| 0 <= k < cells.len() && spec_mirrors(#[trigger] cells[k], i, j)
}

/// The cells of the upper left quadrant that hold the premium `kind`.
pub open spec fn spec_bonus_cells(kind: Square) -> Seq<(usize, usize)> {
    match kind {
        Square::LCD => seq![
            (0usize, 3usize),
            (2usize, 6usize),
            (3usize, 0usize),
            (3usize, 7usize),
            (6usize, 2usize),
            (6usize, 6usize),
            (7usize, 3usize),
        ],
        Square::LCT => seq![(1usize, 5usize), (5usize, 1usize), (5usize, 5usize)],
        Square::MCD => seq![
            (1usize, 1usize),
            (2usize, 2usize),
            (3usize, 3usize),
            (4usize, 4usize),
        ],
        Square::MCT => seq![(0usize, 0usize), (0usize, 7usize), (7usize, 0usize)],
        _ => Seq::empty(),
    }
}

/// The cells of the upper left quadrant that hold the premium `kind`.
pub fn bonus_cells(kind: Square) -> (cells: Vec<(usize, usize)>)
    ensures
        cells@ == spec_bonus_cells(kind),
        forall|k: int| 0 <= k < cells@.len() ==> cells@[k].0 <= CENTER && cells@[k].1 <= CENTER,
{
    let cells = match kind {
        Square::LCD => vec![(0, 3), (2, 6), (3, 0), (3, 7), (6, 2), (6, 6), (7, 3)],
        Square::LCT => vec![(1, 5), (5, 1), (5, 5)],
        Square::MCD => vec![(1, 1), (2, 2), (3, 3), (4, 4)],
        Square::MCT => vec![(0, 0), (0, 7), (7, 0)],
        _ => Vec::new(),
    };
    proof {
        assert(cells@ =~= spec_bonus_cells(kind));
    }
    cells
}

/// The letter that names row `r`: `A` for the first row.
pub open spec fn spec_row_letter(r: int) -> char {
    ((r + 65) as u8) as char
}

/// The digit `d` as a character.
pub open spec fn spec_digit(d: int) -> char {
    ((d + 48) as u8) as char
}

/// The number that names column `c`, in decimal: `1` for the first column.
pub open spec fn spec_column_number(c: int) -> Seq<char> {
    if c < 9 {
        seq![spec_digit(c + 1)]
    } else {
        seq!['1', spec_digit(c - 9)]
    }
}

/// The reference of a word that starts on row `row` and column `col` of the
/// board: the row's letter and then the column's number where the word reads
/// to the right (`direction` is 0), the number and then the letter where it
/// reads downwards.
pub open spec fn spec_reference(row: int, col: int, direction: int) -> Seq<char> {
    if direction == 0 {
        seq![spec_row_letter(row)] + spec_column_number(col)
    } else {
        spec_column_number(col) + seq![spec_row_letter(row)]
    }
}

/// Whether `reference` names the cell `(row, col)` of the board and the
/// direction `direction`, which is 0 or 1.
pub open spec fn spec_is_reference_of(reference: Seq<char>, row: int, col: int, direction: int) -> bool {
    0 <= row < GRID_SIZE && 0 <= col < GRID_SIZE && 0 <= direction <= 1 && reference
        == spec_reference(row, col, direction)
}

/// A reference names one cell and one direction only.
pub proof fn lemma_reference_unique(
    reference: Seq<char>,
    row: int,
    col: int,
    direction: int,
    other_row: int,
    other_col: int,
    other_direction: int,
)
    requires
        spec_is_reference_of(reference, row, col, direction),
        spec_is_reference_of(reference, other_row, other_col, other_direction),
    ensures
        row == other_row,
        col == other_col,
        direction == other_direction,
{
    let a = spec_reference(row, col, direction);
    let b = spec_reference(other_row, other_col, other_direction);
    assert(a.len() == b.len());
    assert(a[0] == b[0]);
    assert(a[1] == b[1]);
    if a.len() == 3 {
        assert(a[2] == b[2]);
    }
}

/// The view of a cell's table: `None` where the cell has no table.
pub open spec fn spec_table_view(table: Option<CrossTable>) -> Option<Map<char, nat>> {
    match table {
        Some(t) => Some(t@),
        None => None,
    }
}

/// The board as a mathematical value: for each cell what stands on it,
/// whether it is marked as an anchor, and its cross table if it has one.
pub struct Board {
    pub squares: Seq<Seq<Square>>,
    pub anchors: Seq<Seq<bool>>,
    pub tables: Seq<Seq<Option<Map<char, nat>>>>,
}

impl Board {
    /// Whether `(i, j)` is a cell of the board.
    pub open spec fn spec_in_range(i: int, j: int) -> bool {
        0 <= i < GRID_SIZE && 0 <= j < GRID_SIZE
    }

    /// Whether `(i, j)` is a cell of the board with a letter on it.
    pub open spec fn spec_occupied(self, i: int, j: int) -> bool {
        Self::spec_in_range(i, j) && self.squares[i][j] is Letter
    }

    /// Whether `(i, j)` has no letter on it. What lies off the board is empty.
    pub open spec fn spec_is_empty(self, i: int, j: int) -> bool {
        !self.spec_occupied(i, j)
    }

    /// Whether no cell has a letter on it.
    pub open spec fn spec_board_empty(self) -> bool {
        forall|i: int, j: int| !#[trigger] self.spec_occupied(i, j)
    }

    /// Whether one of the four cells next to `(i, j)` has a letter on it.
    pub open spec fn spec_has_neighbor(self, i: int, j: int) -> bool {
        self.spec_occupied(i - 1, j) || self.spec_occupied(i + 1, j) || self.spec_occupied(i, j - 1)
            || self.spec_occupied(i, j + 1)
    }

    /// Whether `(i, j)` is empty and next to a letter.
    pub open spec fn spec_touches_letter(self, i: int, j: int) -> bool {
        self.spec_is_empty(i, j) && self.spec_has_neighbor(i, j)
    }

    /// Whether `(i, j)` is an anchor: an empty cell of the board next to a
    /// letter or, on a board without any letter, the center.
    pub open spec fn spec_is_anchor(self, i: int, j: int) -> bool {
        Self::spec_in_range(i, j) && (self.spec_touches_letter(i, j) || (self.spec_board_empty()
            && i == CENTER && j == CENTER))
    }

    /// The letters that stand above `(x, y)` without a gap, the nearest first.
    pub open spec fn spec_up_letters(self, x: int, y: int) -> Seq<char>
        decreases x,
    {
        if x > 0 && self.spec_occupied(x - 1, y) {
            seq![self.squares[x - 1][y]->Letter_0] + self.spec_up_letters(x - 1, y)
        } else {
            Seq::empty()
        }
    }

    /// The letters that stand below `(x, y)` without a gap, the nearest first.
    pub open spec fn spec_down_letters(self, x: int, y: int) -> Seq<char>
        decreases GRID_SIZE - x,
    {
        if x < GRID_SIZE - 1 && self.spec_occupied(x + 1, y) {
            seq![self.squares[x + 1][y]->Letter_0] + self.spec_down_letters(x + 1, y)
        } else {
            Seq::empty()
        }
    }

    /// The letters that stand left of `(x, y)` without a gap, the nearest first.
    pub open spec fn spec_left_letters(self, x: int, y: int) -> Seq<char>
        decreases y,
    {
        if y > 0 && self.spec_occupied(x, y - 1) {
            seq![self.squares[x][y - 1]->Letter_0] + self.spec_left_letters(x, y - 1)
        } else {
            Seq::empty()
        }
    }

    /// What the letters above and below `(x, y)` are worth together.
    pub open spec fn spec_neighbor_value(self, x: int, y: int) -> nat {
        spec_letters_value(self.spec_up_letters(x, y)) + spec_letters_value(
            self.spec_down_letters(x, y),
        )
    }

    /// Whether `letter` fits on `(x, y)`: it is a letter of the alphabet, and
    /// with the letters above and below the cell it makes a stored sequence.
    pub open spec fn spec_cross_fits(self, index: &Gaddag, x: int, y: int, letter: char) -> bool {
        spec_is_letter(letter) && index.spec_contains_word(
            spec_cross_path(letter, self.spec_up_letters(x, y), self.spec_down_letters(x, y)),
        )
    }

    /// What the word read downwards through `(x, y)` scores with `letter` on
    /// that cell: the letter counts with the cell's letter premium, the
    /// letters around it count plainly, and the cell's word premium applies
    /// to the sum.
    pub open spec fn spec_cross_score(self, x: int, y: int, letter: char) -> nat {
        (spec_letter_value(letter) * spec_letter_multiplier(self.squares[x][y])
            + self.spec_neighbor_value(x, y)) * spec_word_multiplier(self.squares[x][y])
    }

    /// The table that belongs to `(x, y)`. A cell that is not marked as an
    /// anchor, or has no letter directly above or below it, has none. Else
    /// the table holds every letter that fits and, if any letter fits, the
    /// blank, which counts as a letter worth nothing.
    pub open spec fn spec_cross_table(self, index: &Gaddag, x: int, y: int) -> Option<
        Map<char, nat>,
    > {
        if !self.anchors[x][y] || (self.spec_up_letters(x, y).len() == 0 && self.spec_down_letters(
            x,
            y,
        ).len() == 0) {
            None
        } else {
            Some(
                Map::new(
                    |c: char|
                        self.spec_cross_fits(index, x, y, c) || (c == WILDCARD && exists|l: char|
                            self.spec_cross_fits(index, x, y, l)),
                    |c: char| self.spec_cross_score(x, y, c),
                ),
            )
        }
    }

    /// The board with the anchors that its squares give.
    pub open spec fn spec_with_anchors(self) -> Board {
        Board {
            anchors: Seq::new(
                GRID_SIZE as nat,
                |i: int| Seq::new(GRID_SIZE as nat, |j: int| self.spec_is_anchor(i, j)),
            ),
            ..self
        }
    }

    /// The board with the cross tables that its squares and its anchors give.
    pub open spec fn spec_with_tables(self, index: &Gaddag) -> Board {
        Board {
            tables: Seq::new(
                GRID_SIZE as nat,
                |x: int| Seq::new(GRID_SIZE as nat, |y: int| self.spec_cross_table(index, x, y)),
            ),
            ..self
        }
    }

    /// The board with anchors and cross tables brought up to date.
    pub open spec fn spec_derived(self, index: &Gaddag) -> Board {
        self.spec_with_anchors().spec_with_tables(index)
    }

    /// The board with rows and columns exchanged, and nothing derived.
    pub open spec fn spec_transposed(self) -> Board {
        Board {
            squares: Seq::new(
                GRID_SIZE as nat,
                |i: int| Seq::new(GRID_SIZE as nat, |j: int| self.squares[j][i]),
            ),
            anchors: Seq::new(GRID_SIZE as nat, |i: int| Seq::new(GRID_SIZE as nat, |j: int| false)),
            tables: Seq::new(
                GRID_SIZE as nat,
                |i: int| Seq::new(GRID_SIZE as nat, |j: int| None::<Map<char, nat>>),
            ),
        }
    }

    /// The board with `bonus` on every cell that mirrors one of `cells`.
    pub open spec fn spec_with_bonus(self, bonus: Square, cells: Seq<(usize, usize)>) -> Board {
        Board {
            squares: Seq::new(
                GRID_SIZE as nat,
                |i: int|
                    Seq::new(
                        GRID_SIZE as nat,
                        |j: int|
                            if spec_in_mirrors(cells, i, j) {
                                bonus
                            } else {
                                self.squares[i][j]
                            },
                    ),
            ),
            ..self
        }
    }

    /// The board with every premium in its place: the cells of each kind,
    /// given for one quadrant, are mirrored into all four.
    pub open spec fn spec_with_premiums(self) -> Board {
        self.spec_with_bonus(Square::LCD, spec_bonus_cells(Square::LCD)).spec_with_bonus(
            Square::LCT,
            spec_bonus_cells(Square::LCT),
        ).spec_with_bonus(Square::LCQ, spec_bonus_cells(Square::LCQ)).spec_with_bonus(
            Square::MCD,
            spec_bonus_cells(Square::MCD),
        ).spec_with_bonus(Square::MCT, spec_bonus_cells(Square::MCT)).spec_with_bonus(
            Square::MCQ,
            spec_bonus_cells(Square::MCQ),
        )
    }

    /// What stands on `(r, c)` once the letters of `word` are written from
    /// `(i, j)` on: to the right where `direction` is 0, downwards where it is
    /// not.
    pub open spec fn spec_square_with_word(
        self,
        word: Seq<char>,
        i: int,
        j: int,
        direction: int,
        r: int,
        c: int,
    ) -> Square {
        if direction == 0 && r == i && j <= c < j + word.len() {
            Square::Letter(word[c - j])
        } else if direction != 0 && c == j && i <= r < i + word.len() {
            Square::Letter(word[r - i])
        } else {
            self.squares[r][c]
        }
    }

    /// The board with the letters of `word` written from `(i, j)` on: to the
    /// right where `direction` is 0, downwards where it is not.
    pub open spec fn spec_with_word(self, word: Seq<char>, i: int, j: int, direction: int) -> Board {
        Board {
            squares: Seq::new(
                GRID_SIZE as nat,
                |r: int|
                    Seq::new(
                        GRID_SIZE as nat,
                        |c: int| self.spec_square_with_word(word, i, j, direction, r, c),
                    ),
            ),
            ..self
        }
    }
}

impl View for Grid {
    type V = Board;

    open spec fn view(&self) -> Board {
        Board {
            squares: Seq::new(
                GRID_SIZE as nat,
                |i: int| Seq::new(GRID_SIZE as nat, |j: int| self.squares[i][j]),
            ),
            anchors: Seq::new(
                GRID_SIZE as nat,
                |i: int| Seq::new(GRID_SIZE as nat, |j: int| self.anchors[i][j]),
            ),
            tables: Seq::new(
                GRID_SIZE as nat,
                |i: int|
                    Seq::new(GRID_SIZE as nat, |j: int| spec_table_view(self.crosswords[i][j])),
            ),
        }
    }
}

impl Grid {
    /// A board without letters or premiums, and nothing derived yet.
    pub fn new() -> (grid: Grid)
        ensures
            forall|i: int, j: int|
                0 <= i < GRID_SIZE && 0 <= j < GRID_SIZE ==> #[trigger] grid.squares[i][j]
                    == Square::Blank,
            forall|i: int, j: int|
                0 <= i < GRID_SIZE && 0 <= j < GRID_SIZE ==> !#[trigger] grid.anchors[i][j],
            forall|i: int, j: int|
                0 <= i < GRID_SIZE && 0 <= j < GRID_SIZE ==> #[trigger] grid.crosswords[i][j] is None,
            grid@.spec_board_empty(),
    {
        Grid {
            squares: [[Square::Blank; 15]; 15],
            anchors: [[false; 15]; 15],
            crosswords: [[None; 15]; 15],
        }
    }

    /// The factors of the cell `(x, y)`: first the one for the letter placed
    /// on it, then the one for the word. Both are 1 where the cell holds no
    /// premium.
    pub fn get_square_multiplier(&self, x: usize, y: usize) -> (r: (u64, u64))
        requires
            x < GRID_SIZE,
            y < GRID_SIZE,
        ensures
            r.0 == spec_letter_multiplier(self.squares[x as int][y as int]),
            r.1 == spec_word_multiplier(self.squares[x as int][y as int]),
            1 <= r.0 <= 4,
            1 <= r.1 <= 4,
    {
        match self.squares[x][y] {
            Square::Blank => (1, 1),
            Square::LCD => (2, 1),
            Square::LCT => (3, 1),
            Square::LCQ => (4, 1),
            Square::MCD => (1, 2),
            Square::MCT => (1, 3),
            Square::MCQ => (1, 4),
            _ => (1, 1),
        }
    }

    /// Whether `(i, j)` has no letter on it. What lies off the board is empty.
    pub fn is_empty(&self, i: usize, j: usize) -> (b: bool)
        ensures
            b == self@.spec_is_empty(i as int, j as int),
    {
        if i >= GRID_SIZE || j >= GRID_SIZE {
            return true;
        }
        match self.squares[i][j] {
            Square::Letter(_) => false,
            _ => true,
        }
    }

    /// Recomputes the anchors from the squares: an anchor is an empty cell
    /// next to a letter, and the center where the board holds no letter. A
    /// cell with a letter is never an anchor, so a board without any empty
    /// cell has none.
    pub fn update_anchors(&mut self)
        ensures
            final(self)@ == old(self)@.spec_with_anchors(),
            final(self).squares == old(self).squares,
            final(self).crosswords == old(self).crosswords,
    {
        let ghost board = self@;
        let mut any_letter = false;
        let mut i: usize = 0;
        while i < GRID_SIZE
            invariant
                i <= GRID_SIZE,
                self.squares == old(self).squares,
                self.crosswords == old(self).crosswords,
                board == old(self)@,
                any_letter == (exists|r: int, c: int|
                    0 <= r < i && 0 <= c < GRID_SIZE && #[trigger] board.spec_occupied(r, c)),
                forall|r: int, c: int|
                    0 <= r < i && 0 <= c < GRID_SIZE ==> self.anchors[r][c]
                        == #[trigger] board.spec_touches_letter(r, c),
            decreases GRID_SIZE - i,
        {
            let mut j: usize = 0;
            while j < GRID_SIZE
                invariant
                    i < GRID_SIZE,
                    j <= GRID_SIZE,
                    self.squares == old(self).squares,
                    self.crosswords == old(self).crosswords,
                    board == old(self)@,
                    any_letter == (exists|r: int, c: int|
                        (0 <= r < i && 0 <= c < GRID_SIZE || r == i && 0 <= c < j)
                            && #[trigger] board.spec_occupied(r, c)),
                    forall|r: int, c: int|
                        (0 <= r < i && 0 <= c < GRID_SIZE || r == i && 0 <= c < j)
                            ==> self.anchors[r][c] == #[trigger] board.spec_touches_letter(r, c),
                decreases GRID_SIZE - j,
            {
                let empty = self.is_empty(i, j);
                if !empty {
                    any_letter = true;
                    proof {
                        assert(board.spec_occupied(i as int, j as int));
                    }
                }
                let above = if i == 0 {
                    true
                } else {
                    self.is_empty(i - 1, j)
                };
                let below = self.is_empty(i + 1, j);
                let left = if j == 0 {
                    true
                } else {
                    self.is_empty(i, j - 1)
                };
                let right = self.is_empty(i, j + 1);
                self.anchors[i][j] = empty && !(above && below && left && right);
                j = j + 1;
            }
            i = i + 1;
        }
        if !any_letter {
            self.anchors[CENTER][CENTER] = true;
        }
        proof {
            let derived = board.spec_with_anchors();
            if !any_letter {
                assert forall|r: int, c: int| !#[trigger] board.spec_occupied(r, c) by {}
                assert(board.spec_board_empty());
            } else {
                let (r, c) = choose|r: int, c: int|
                    0 <= r < GRID_SIZE && 0 <= c < GRID_SIZE && #[trigger] board.spec_occupied(r, c);
                assert(!board.spec_board_empty());
            }
            assert forall|r: int, c: int| 0 <= r < GRID_SIZE && 0 <= c < GRID_SIZE implies self.anchors[r][c]
                == board.spec_is_anchor(r, c) by {
                assert(self.anchors[r][c] == (board.spec_touches_letter(r, c) || (!any_letter && r
                    == CENTER && c == CENTER)));
            }
            assert(self@.anchors =~~= derived.anchors);
            assert(self@.squares =~~= derived.squares);
            assert(self@.tables =~~= derived.tables);
        }
    }

    /// The letters directly above `(x, y)` and those directly below it, both
    /// read away from the cell, and what they are worth together.
    pub fn adj(&self, x: usize, y: usize) -> (r: (Vec<char>, Vec<char>, u64))
        requires
            x < GRID_SIZE,
            y < GRID_SIZE,
        ensures
            r.0@ == self@.spec_up_letters(x as int, y as int),
            r.1@ == self@.spec_down_letters(x as int, y as int),
            r.2 == self@.spec_neighbor_value(x as int, y as int),
            r.0@.len() + r.1@.len() <= GRID_SIZE - 1,
            r.2 <= MAX_LETTER_VALUE * (GRID_SIZE - 1),
    {
        let ghost board = self@;
        let mut up: Vec<char> = Vec::new();
        let mut down: Vec<char> = Vec::new();
        let mut score: u64 = 0;
        let mut i: usize = x;
        let mut open = true;
        while open && i > 0
            invariant
                i <= x < GRID_SIZE,
                y < GRID_SIZE,
                board == self@,
                board.spec_up_letters(x as int, y as int) == up@ + if open {
                    board.spec_up_letters(i as int, y as int)
                } else {
                    Seq::<char>::empty()
                },
                score == spec_letters_value(up@),
                up@.len() <= x - i,
                score <= MAX_LETTER_VALUE * up@.len(),
            decreases
                    i + if open {
                        1nat
                    } else {
                        0nat
                    },
        {
            match self.squares[i - 1][y] {
                Square::Letter(c) => {
                    proof {
                        assert(up@.push(c).drop_last() =~= up@);
                        assert(up@.push(c) + board.spec_up_letters(i - 1, y as int) =~= up@ + (seq![c]
                            + board.spec_up_letters(i - 1, y as int)));
                    }
                    up.push(c);
                    score = score + letter_value(c);
                    i = i - 1;
                },
                _ => {
                    open = false;
                },
            }
        }
        proof {
            assert(up@ + Seq::<char>::empty() =~= up@);
        }
        let ghost up_score = score;
        i = x;
        open = true;
        while open && i < GRID_SIZE - 1
            invariant
                x <= i < GRID_SIZE,
                y < GRID_SIZE,
                board == self@,
                board.spec_down_letters(x as int, y as int) == down@ + if open {
                    board.spec_down_letters(i as int, y as int)
                } else {
                    Seq::<char>::empty()
                },
                score == up_score + spec_letters_value(down@),
                down@.len() <= i - x,
                score <= up_score + MAX_LETTER_VALUE * down@.len(),
                up_score <= MAX_LETTER_VALUE * x,
            decreases
                    GRID_SIZE - i + if open {
                        1nat
                    } else {
                        0nat
                    },
        {
            match self.squares[i + 1][y] {
                Square::Letter(c) => {
                    proof {
                        assert(down@.push(c).drop_last() =~= down@);
                        assert(down@.push(c) + board.spec_down_letters(i + 1, y as int) =~= down@ + (
                        seq![c] + board.spec_down_letters(i + 1, y as int)));
                    }
                    down.push(c);
                    score = score + letter_value(c);
                    i = i + 1;
                },
                _ => {
                    open = false;
                },
            }
        }
        proof {
            assert(down@ + Seq::<char>::empty() =~= down@);
        }
        (up, down, score)
    }

    /// The cross table of the cell `(x, y)`, from the squares and from
    /// whether the cell is marked as an anchor.
    pub fn cross_table(&self, index: &Gaddag, x: usize, y: usize) -> (table: Option<CrossTable>)
        requires
            index.wf(),
            x < GRID_SIZE,
            y < GRID_SIZE,
        ensures
            spec_table_view(table) == self@.spec_cross_table(index, x as int, y as int),
    {
        let ghost board = self@;
        if !self.anchors[x][y] {
            return None;
        }
        let (mut up, mut down, around) = self.adj(x, y);
        if up.len() == 0 && down.len() == 0 {
            return None;
        }
        let (letter_factor, word_factor) = self.get_square_multiplier(x, y);
        let ghost up_letters = up@;
        let ghost down_letters = down@;
        let mut path: Vec<char> = Vec::new();
        path.push(WILDCARD);
        path.append(&mut up);
        path.push(SEPARATOR);
        path.append(&mut down);
        let mut table = CrossTable::new();
        let mut any = false;
        let mut k: usize = 0;
        while k < ALPHABET_SIZE
            invariant
                k <= ALPHABET_SIZE,
                index.wf(),
                x < GRID_SIZE,
                y < GRID_SIZE,
                board == self@,
                up_letters == board.spec_up_letters(x as int, y as int),
                down_letters == board.spec_down_letters(x as int, y as int),
                around == board.spec_neighbor_value(x as int, y as int),
                around <= MAX_LETTER_VALUE * (GRID_SIZE - 1),
                letter_factor == spec_letter_multiplier(board.squares[x as int][y as int]),
                word_factor == spec_word_multiplier(board.squares[x as int][y as int]),
                1 <= letter_factor <= 4,
                1 <= word_factor <= 4,
                path@.len() == up_letters.len() + down_letters.len() + 2,
                path@.subrange(1, path@.len() as int) == up_letters + seq![SEPARATOR] + down_letters,
                forall|m: int|
                    0 <= m < k ==> table.scores[m] == if #[trigger] board.spec_cross_fits(
                        index,
                        x as int,
                        y as int,
                        spec_alphabet_letter(m),
                    ) {
                        Some(board.spec_cross_score(x as int, y as int, spec_alphabet_letter(m)) as u32)
                    } else {
                        None
                    },
                forall|m: int|
                    0 <= m < k ==> board.spec_cross_score(x as int, y as int, spec_alphabet_letter(m))
                        <= u32::MAX,
                forall|m: int| k <= m < 27 ==> table.scores[m] is None,
                any == (exists|m: int|
                    0 <= m < k && #[trigger] board.spec_cross_fits(
                        index,
                        x as int,
                        y as int,
                        spec_alphabet_letter(m),
                    )),
            decreases ALPHABET_SIZE - k,
        {
            let c = alphabet_letter(k);
            let ghost before = path@;
            path[0] = c;
            proof {
                let rest = up_letters + seq![SEPARATOR] + down_letters;
                assert(path@.subrange(1, path@.len() as int) =~= before.subrange(
                    1,
                    before.len() as int,
                ));
                assert(path@ =~= seq![c] + rest);
                assert(seq![c] + rest =~= spec_cross_path(c, up_letters, down_letters));
            }
            let value = letter_value(c);
            assert(value * letter_factor <= 40) by (nonlinear_arith)
                requires
                    value <= 10,
                    letter_factor <= 4,
            ;
            assert((value * letter_factor + around) * word_factor <= 720) by (nonlinear_arith)
                requires
                    value * letter_factor <= 40,
                    around <= 140,
                    word_factor <= 4,
            ;
            let score = (value * letter_factor + around) * word_factor;
            let fits = index.contains_chars(path.as_slice());
            proof {
                assert(fits == board.spec_cross_fits(
                    index,
                    x as int,
                    y as int,
                    spec_alphabet_letter(k as int),
                ));
            }
            if fits {
                table.scores[k] = Some(score as u32);
                any = true;
            }
            k = k + 1;
        }
        if any {
            assert(around * word_factor <= 560) by (nonlinear_arith)
                requires
                    around <= 140,
                    word_factor <= 4,
            ;
            table.scores[26] = Some((around * word_factor) as u32);
        }
        proof {
            let expected = board.spec_cross_table(index, x as int, y as int);
            assert(expected is Some);
            let wanted = expected->0;
            assert forall|c: char| table@.dom().contains(c) == wanted.dom().contains(c) by {
                if spec_is_letter(c) {
                    let m = c as u32 - 65;
                    assert(spec_alphabet_letter(m as int) == c);
                    assert(table.scores[m as int] is Some == board.spec_cross_fits(
                        index,
                        x as int,
                        y as int,
                        spec_alphabet_letter(m as int),
                    ));
                } else if c == WILDCARD {
                    if any {
                        let m = choose|m: int|
                            0 <= m < ALPHABET_SIZE && #[trigger] board.spec_cross_fits(
                                index,
                                x as int,
                                y as int,
                                spec_alphabet_letter(m),
                            );
                        assert(board.spec_cross_fits(index, x as int, y as int, spec_alphabet_letter(m)));
                    }
                    if exists|l: char| board.spec_cross_fits(index, x as int, y as int, l) {
                        let l = choose|l: char| board.spec_cross_fits(index, x as int, y as int, l);
                        let m = l as u32 - 65;
                        assert(spec_alphabet_letter(m as int) == l);
                        assert(board.spec_cross_fits(
                            index,
                            x as int,
                            y as int,
                            spec_alphabet_letter(m as int),
                        ));
                    }
                }
            }
            assert forall|c: char| table@.dom().contains(c) implies table@[c] == wanted[c] by {
                if spec_is_letter(c) {
                    let m = c as u32 - 65;
                    assert(spec_alphabet_letter(m as int) == c);
                    assert(board.spec_cross_fits(
                        index,
                        x as int,
                        y as int,
                        spec_alphabet_letter(m as int),
                    ));
                } else {
                    assert(c == WILDCARD);
                    assert(spec_letter_value(WILDCARD) == 0);
                    assert(board.spec_cross_score(x as int, y as int, c) == around * word_factor)
                        by (nonlinear_arith)
                        requires
                            board.spec_cross_score(x as int, y as int, c) == (0
                                * spec_letter_multiplier(board.squares[x as int][y as int]) + around)
                                * word_factor,
                    ;
                }
            }
            assert(table@ =~= wanted);
        }
        Some(table)
    }

    /// Recomputes the cross table of every cell from the squares and the
    /// anchors.
    pub fn update_crosswords(&mut self, index: &Gaddag)
        requires
            index.wf(),
        ensures
            final(self)@ == old(self)@.spec_with_tables(index),
            final(self).squares == old(self).squares,
            final(self).anchors == old(self).anchors,
    {
        let ghost board = self@;
        let mut tables: [[Option<CrossTable>; 15]; 15] = [[None; 15]; 15];
        let mut x: usize = 0;
        while x < GRID_SIZE
            invariant
                x <= GRID_SIZE,
                index.wf(),
                *self == *old(self),
                board == self@,
                forall|r: int, c: int|
                    0 <= r < x && 0 <= c < GRID_SIZE ==> spec_table_view(tables[r][c])
                        == #[trigger] board.spec_cross_table(index, r, c),
            decreases GRID_SIZE - x,
        {
            let mut y: usize = 0;
            while y < GRID_SIZE
                invariant
                    x < GRID_SIZE,
                    y <= GRID_SIZE,
                    index.wf(),
                    *self == *old(self),
                    board == self@,
                    forall|r: int, c: int|
                        (0 <= r < x && 0 <= c < GRID_SIZE || r == x && 0 <= c < y) ==> spec_table_view(
                            tables[r][c],
                        ) == #[trigger] board.spec_cross_table(index, r, c),
                decreases GRID_SIZE - y,
            {
                tables[x][y] = self.cross_table(index, x, y);
                y = y + 1;
            }
            x = x + 1;
        }
        self.crosswords = tables;
        proof {
            let derived = board.spec_with_tables(index);
            assert forall|r: int, c: int| 0 <= r < GRID_SIZE && 0 <= c < GRID_SIZE implies self@.tables[r][c]
                == derived.tables[r][c] by {
                assert(spec_table_view(tables[r][c]) == board.spec_cross_table(index, r, c));
            }
            assert(self@.tables =~~= derived.tables);
            assert(self@.squares =~~= derived.squares);
            assert(self@.anchors =~~= derived.anchors);
        }
    }

    /// Puts `bonus` on each of `cells` and on its three mirror images.
    pub fn set_bonus(&mut self, bonus: Square, cells: &[(usize, usize)])
        requires
            forall|k: int|
                0 <= k < cells@.len() ==> (#[trigger] cells@[k]).0 < GRID_SIZE && cells@[k].1
                    < GRID_SIZE,
        ensures
            final(self)@ == old(self)@.spec_with_bonus(bonus, cells@),
            final(self).anchors == old(self).anchors,
            final(self).crosswords == old(self).crosswords,
    {
        let n: usize = GRID_SIZE - 1;
        let mut k: usize = 0;
        while k < cells.len()
            invariant
                k <= cells.len(),
                n == GRID_SIZE - 1,
                self.anchors == old(self).anchors,
                self.crosswords == old(self).crosswords,
                forall|m: int|
                    0 <= m < cells@.len() ==> (#[trigger] cells@[m]).0 < GRID_SIZE && cells@[m].1
                        < GRID_SIZE,
                forall|i: int, j: int|
                    0 <= i < GRID_SIZE && 0 <= j < GRID_SIZE ==> #[trigger] self.squares[i][j]
                        == if spec_in_mirrors(cells@.take(k as int), i, j) {
                        bonus
                    } else {
                        old(self).squares[i][j]
                    },
            decreases cells.len() - k,
        {
            let (x, y) = cells[k];
            let ghost before = self.squares;
            self.squares[x][y] = bonus;
            self.squares[x][n - y] = bonus;
            self.squares[n - x][y] = bonus;
            self.squares[n - x][n - y] = bonus;
            proof {
                let shorter = cells@.take(k as int);
                let longer = cells@.take(k + 1);
                assert(longer[k as int] == cells@[k as int]);
                assert forall|i: int, j: int|
                    0 <= i < GRID_SIZE && 0 <= j < GRID_SIZE implies #[trigger] self.squares[i][j]
                    == if spec_in_mirrors(longer, i, j) {
                    bonus
                } else {
                    old(self).squares[i][j]
                } by {
                    assert(self.squares[i][j] == if spec_mirrors(cells@[k as int], i, j) {
                        bonus
                    } else {
                        before[i][j]
                    });
                    if spec_in_mirrors(shorter, i, j) {
                        let m = choose|m: int|
                            0 <= m < shorter.len() && spec_mirrors(#[trigger] shorter[m], i, j);
                        assert(longer[m] == shorter[m]);
                    }
                    if spec_in_mirrors(longer, i, j) {
                        let m = choose|m: int|
                            0 <= m < longer.len() && spec_mirrors(#[trigger] longer[m], i, j);
                        if m < k {
                            assert(shorter[m] == longer[m]);
                        }
                    }
                }
            }
            k = k + 1;
        }
        proof {
            assert(cells@.take(k as int) =~= cells@);
            let wanted = old(self)@.spec_with_bonus(bonus, cells@);
            assert(self@.squares =~~= wanted.squares);
            assert(self@.anchors =~~= wanted.anchors);
            assert(self@.tables =~~= wanted.tables);
        }
    }

    /// Places the premiums on the board.
    pub fn generate_grid(&mut self)
        ensures
            final(self)@ == old(self)@.spec_with_premiums(),
            final(self).anchors == old(self).anchors,
            final(self).crosswords == old(self).crosswords,
    {
        let cells = bonus_cells(Square::LCD);
        self.set_bonus(Square::LCD, cells.as_slice());
        let cells = bonus_cells(Square::LCT);
        self.set_bonus(Square::LCT, cells.as_slice());
        let cells = bonus_cells(Square::LCQ);
        self.set_bonus(Square::LCQ, cells.as_slice());
        let cells = bonus_cells(Square::MCD);
        self.set_bonus(Square::MCD, cells.as_slice());
        let cells = bonus_cells(Square::MCT);
        self.set_bonus(Square::MCT, cells.as_slice());
        let cells = bonus_cells(Square::MCQ);
        self.set_bonus(Square::MCQ, cells.as_slice());
    }

    /// Writes `word` on the board from `(i, j)` on, to the right where
    /// `direction` is 0 and downwards where it is not, and brings anchors and
    /// cross tables up to date. Whether the word may stand there is not
    /// looked at.
    pub fn play(&mut self, word: &str, i: usize, j: usize, direction: usize, index: &Gaddag)
        requires
            index.wf(),
            word@.len() > 0 ==> if direction == 0 {
                i < GRID_SIZE && j + word@.len() <= GRID_SIZE
            } else {
                j < GRID_SIZE && i + word@.len() <= GRID_SIZE
            },
        ensures
            final(self)@ == old(self)@.spec_with_word(
                word@,
                i as int,
                j as int,
                direction as int,
            ).spec_derived(index),
    {
        let letters = str_chars(word);
        let n = letters.len();
        let mut k: usize = 0;
        if direction == 0 {
            while k < n
                invariant
                    k <= n,
                    n == letters@.len(),
                    letters@ == word@,
                    n > 0 ==> i < GRID_SIZE && j + n <= GRID_SIZE,
                    self.anchors == old(self).anchors,
                    self.crosswords == old(self).crosswords,
                    forall|r: int, c: int|
                        0 <= r < GRID_SIZE && 0 <= c < GRID_SIZE ==> #[trigger] self.squares[r][c]
                            == if r == i && j <= c < j + k {
                            Square::Letter(letters@[c - j])
                        } else {
                            old(self).squares[r][c]
                        },
                decreases n - k,
            {
                let letter = char_at(letters.as_slice(), k);
                let ghost before = self.squares;
                self.squares[i][j + k] = Square::Letter(letter);
                proof {
                    assert forall|r: int, c: int|
                        0 <= r < GRID_SIZE && 0 <= c < GRID_SIZE implies #[trigger] self.squares[r][c]
                        == if r == i && c == j + k {
                        Square::Letter(letter)
                    } else {
                        before[r][c]
                    } by {}
                }
                k = k + 1;
            }
        } else {
            while k < n
                invariant
                    k <= n,
                    n == letters@.len(),
                    letters@ == word@,
                    n > 0 ==> j < GRID_SIZE && i + n <= GRID_SIZE,
                    self.anchors == old(self).anchors,
                    self.crosswords == old(self).crosswords,
                    forall|r: int, c: int|
                        0 <= r < GRID_SIZE && 0 <= c < GRID_SIZE ==> #[trigger] self.squares[r][c]
                            == if c == j && i <= r < i + k {
                            Square::Letter(letters@[r - i])
                        } else {
                            old(self).squares[r][c]
                        },
                decreases n - k,
            {
                let letter = char_at(letters.as_slice(), k);
                let ghost before = self.squares;
                self.squares[i + k][j] = Square::Letter(letter);
                proof {
                    assert forall|r: int, c: int|
                        0 <= r < GRID_SIZE && 0 <= c < GRID_SIZE implies #[trigger] self.squares[r][c]
                        == if r == i + k && c == j {
                        Square::Letter(letter)
                    } else {
                        before[r][c]
                    } by {}
                }
                k = k + 1;
            }
        }
        proof {
            let wanted = old(self)@.spec_with_word(word@, i as int, j as int, direction as int);
            assert forall|r: int, c: int| 0 <= r < GRID_SIZE && 0 <= c < GRID_SIZE implies self@.squares[r][c]
                == wanted.squares[r][c] by {
                assert(self.squares[r][c] == self.squares[r][c]);
            }
            assert(self@.squares =~~= wanted.squares);
            assert(self@.anchors =~~= wanted.anchors);
            assert(self@.tables =~~= wanted.tables);
        }
        self.update_anchors();
        self.update_crosswords(index);
    }

    /// The board with rows and columns exchanged, its anchors and cross
    /// tables made anew. A word that reads downwards on this board reads to
    /// the right on that one.
    pub fn transpose_grid(&self, index: &Gaddag) -> (transposed: Grid)
        requires
            index.wf(),
        ensures
            transposed@ == self@.spec_transposed().spec_derived(index),
    {
        let mut transposed = Grid::new();
        let mut i: usize = 0;
        while i < GRID_SIZE
            invariant
                i <= GRID_SIZE,
                forall|r: int, c: int|
                    0 <= r < GRID_SIZE && 0 <= c < GRID_SIZE ==> !#[trigger] transposed.anchors[r][c],
                forall|r: int, c: int|
                    0 <= r < GRID_SIZE && 0 <= c < GRID_SIZE
                        ==> #[trigger] transposed.crosswords[r][c] is None,
                forall|r: int, c: int|
                    0 <= r < i && 0 <= c < GRID_SIZE ==> #[trigger] transposed.squares[c][r]
                        == self.squares[r][c],
            decreases GRID_SIZE - i,
        {
            let mut j: usize = 0;
            while j < GRID_SIZE
                invariant
                    i < GRID_SIZE,
                    j <= GRID_SIZE,
                    forall|r: int, c: int|
                        0 <= r < GRID_SIZE && 0 <= c < GRID_SIZE
                            ==> !#[trigger] transposed.anchors[r][c],
                    forall|r: int, c: int|
                        0 <= r < GRID_SIZE && 0 <= c < GRID_SIZE
                            ==> #[trigger] transposed.crosswords[r][c] is None,
                    forall|r: int, c: int|
                        (0 <= r < i && 0 <= c < GRID_SIZE || r == i && 0 <= c < j)
                            ==> #[trigger] transposed.squares[c][r] == self.squares[r][c],
                decreases GRID_SIZE - j,
            {
                let ghost before = transposed.squares;
                transposed.squares[j][i] = self.squares[i][j];
                proof {
                    assert forall|r: int, c: int|
                        (0 <= r < i && 0 <= c < GRID_SIZE || r == i && 0 <= c < j
                            + 1) implies #[trigger] transposed.squares[c][r]
                        == self.squares[r][c] by {
                        if !(r == i && c == j) {
                            assert(transposed.squares[c][r] == before[c][r]);
                        }
                    }
                }
                j = j + 1;
            }
            i = i + 1;
        }
        proof {
            let wanted = self@.spec_transposed();
            assert forall|r: int, c: int| 0 <= r < GRID_SIZE && 0 <= c < GRID_SIZE implies transposed@.squares[r][c]
                == wanted.squares[r][c] by {
                assert(transposed.squares[r][c] == self.squares[c][r]);
            }
            assert(transposed@.squares =~~= wanted.squares);
            assert(transposed@.anchors =~~= wanted.anchors);
            assert(transposed@.tables =~~= wanted.tables);
        }
        transposed.update_anchors();
        transposed.update_crosswords(index);
        transposed
    }

    /// The reference of the word that starts at `position`. For a word that
    /// reads to the right, `position` is its row and its column; for a word
    /// that reads downwards (`horizontal` is false), `position` is as the
    /// transposed board has it: the column first, then the row.
    pub fn pos_to_ref(position: (usize, usize), horizontal: bool) -> (reference: String)
        requires
            position.0 < GRID_SIZE,
            position.1 < GRID_SIZE,
        ensures
            reference@ == if horizontal {
                spec_reference(position.0 as int, position.1 as int, 0)
            } else {
                spec_reference(position.1 as int, position.0 as int, 1)
            },
    {
        let (row, col) = if horizontal {
            position
        } else {
            (position.1, position.0)
        };
        let letter = ((row + 65) as u8) as char;
        let mut reference = String::new();
        if horizontal {
            string_push(&mut reference, letter);
        }
        if col < 9 {
            string_push(&mut reference, ((col + 49) as u8) as char);
        } else {
            string_push(&mut reference, '1');
            string_push(&mut reference, ((col + 39) as u8) as char);
        }
        if !horizontal {
            string_push(&mut reference, letter);
        }
        proof {
            assert(reference@ =~= spec_reference(
                row as int,
                col as int,
                if horizontal {
                    0
                } else {
                    1
                },
            ));
        }
        reference
    }

    /// The cell and the direction that `reference` names: row and column of
    /// the board, then 0 for a word that reads to the right and 1 for one
    /// that reads downwards. `None` where `reference` names nothing.
    pub fn ref_to_pos(reference: &str) -> (r: Option<((usize, usize), usize)>)
        ensures
            match r {
                Some(((row, col), direction)) => spec_is_reference_of(
                    reference@,
                    row as int,
                    col as int,
                    direction as int,
                ),
                None => forall|row: int, col: int, direction: int|
                    !spec_is_reference_of(reference@, row, col, direction),
            },
    {
        let chars = str_chars(reference);
        let n = chars.len();
        if n == 2 {
            let first = chars[0];
            let second = chars[1];
            if 'A' <= first && first <= 'O' && '1' <= second && second <= '9' {
                let row = (first as u8 - 65) as usize;
                let col = (second as u8 - 49) as usize;
                proof {
                    assert(chars@ =~= spec_reference(row as int, col as int, 0));
                }
                return Some(((row, col), 0));
            }
            if 'A' <= second && second <= 'O' && '1' <= first && first <= '9' {
                let row = (second as u8 - 65) as usize;
                let col = (first as u8 - 49) as usize;
                proof {
                    assert(chars@ =~= spec_reference(row as int, col as int, 1));
                }
                return Some(((row, col), 1));
            }
        } else if n == 3 {
            let first = chars[0];
            let second = chars[1];
            let third = chars[2];
            if 'A' <= first && first <= 'O' && second == '1' && '0' <= third && third <= '5' {
                let row = (first as u8 - 65) as usize;
                let col = (third as u8 - 39) as usize;
                proof {
                    assert(chars@ =~= spec_reference(row as int, col as int, 0));
                }
                return Some(((row, col), 0));
            }
            if 'A' <= third && third <= 'O' && first == '1' && '0' <= second && second <= '5' {
                let row = (third as u8 - 65) as usize;
                let col = (second as u8 - 39) as usize;
                proof {
                    assert(chars@ =~= spec_reference(row as int, col as int, 1));
                }
                return Some(((row, col), 1));
            }
        }
        proof {
            assert forall|row: int, col: int, direction: int|
                !spec_is_reference_of(reference@, row, col, direction) by {
                if spec_is_reference_of(reference@, row, col, direction) {
                    let wanted = spec_reference(row, col, direction);
                    assert(wanted.len() == n);
                    assert(wanted[0] == chars@[0]);
                    assert(wanted[1] == chars@[1]);
                    if n == 3 {
                        assert(wanted[2] == chars@[2]);
                    }
                }
            }
        }
        None
    }
}

/// The row or column that `i` mirrors in the upper left quadrant.
pub open spec fn spec_fold(i: int) -> int {
    if i <= CENTER {
        i
    } else {
        GRID_SIZE - 1 - i
    }
}

/// The premium that the cell `(x, y)` of the upper left quadrant holds, if
/// it holds one.
pub open spec fn spec_premium_at(x: int, y: int) -> Option<Square> {
    if (x == 0 && y == 3) || (x == 2 && y == 6) || (x == 3 && y == 0) || (x == 3 && y == 7) || (x
        == 6 && y == 2) || (x == 6 && y == 6) || (x == 7 && y == 3) {
        Some(Square::LCD)
    } else if (x == 1 && y == 5) || (x == 5 && y == 1) || (x == 5 && y == 5) {
        Some(Square::LCT)
    } else if (x == 1 && y == 1) || (x == 2 && y == 2) || (x == 3 && y == 3) || (x == 4 && y == 4) {
        Some(Square::MCD)
    } else if (x == 0 && y == 0) || (x == 0 && y == 7) || (x == 7 && y == 0) {
        Some(Square::MCT)
    } else {
        None
    }
}

/// A cell of the board mirrors a cell of the list of `kind` exactly if the
/// cell it mirrors in the upper left quadrant holds `kind`.
pub proof fn lemma_mirrors_of_kind(kind: Square, i: int, j: int)
    requires
        Board::spec_in_range(i, j),
        kind !is Letter,
        kind !is Blank,
    ensures
        spec_in_mirrors(spec_bonus_cells(kind), i, j) <==> spec_premium_at(
            spec_fold(i),
            spec_fold(j),
        ) == Some(kind),
{
    let cells = spec_bonus_cells(kind);
    let x = spec_fold(i);
    let y = spec_fold(j);
    if spec_in_mirrors(cells, i, j) {
        let k = choose|k: int| 0 <= k < cells.len() && spec_mirrors(#[trigger] cells[k], i, j);
        assert(cells[k].0 == x && cells[k].1 == y);
    }
    if spec_premium_at(x, y) == Some(kind) {
        match kind {
            Square::LCD => {
                let k: int = if x == 0 {
                    0
                } else if x == 2 {
                    1
                } else if x == 3 && y == 0 {
                    2
                } else if x == 3 {
                    3
                } else if x == 6 && y == 2 {
                    4
                } else if x == 6 {
                    5
                } else {
                    6
                };
                assert(spec_mirrors(cells[k], i, j));
            },
            Square::LCT => {
                let k: int = if x == 1 {
                    0
                } else if y == 1 {
                    1
                } else {
                    2
                };
                assert(spec_mirrors(cells[k], i, j));
            },
            Square::MCD => {
                let k: int = x - 1;
                assert(spec_mirrors(cells[k], i, j));
            },
            Square::MCT => {
                let k: int = if x == 7 {
                    2
                } else if y == 7 {
                    1
                } else {
                    0
                };
                assert(spec_mirrors(cells[k], i, j));
            },
            _ => {},
        }
    }
}

/// Where the premiums lie: a cell of the board holds the premium of the cell
/// that it mirrors in the upper left quadrant, and stays as it was where that
/// cell holds none.
pub proof fn lemma_premium_layout(board: Board, i: int, j: int)
    requires
        Board::spec_in_range(i, j),
    ensures
        board.spec_with_premiums().squares[i][j] == match spec_premium_at(
            spec_fold(i),
            spec_fold(j),
        ) {
            Some(premium) => premium,
            None => board.squares[i][j],
        },
{
    lemma_mirrors_of_kind(Square::LCD, i, j);
    lemma_mirrors_of_kind(Square::LCT, i, j);
    lemma_mirrors_of_kind(Square::LCQ, i, j);
    lemma_mirrors_of_kind(Square::MCD, i, j);
    lemma_mirrors_of_kind(Square::MCT, i, j);
    lemma_mirrors_of_kind(Square::MCQ, i, j);
}

/// The premiums are laid out symmetrically: the three mirror images of a cell
/// of a premium's list hold that premium, as the cell itself does.
pub proof fn lemma_premiums_symmetric(board: Board, kind: Square, k: int)
    requires
        kind !is Letter,
        kind !is Blank,
        0 <= k < spec_bonus_cells(kind).len(),
    ensures
        ({
            let (x, y) = spec_bonus_cells(kind)[k];
            let n = GRID_SIZE - 1;
            let after = board.spec_with_premiums();
            &&& after.squares[x as int][y as int] == kind
            &&& after.squares[x as int][n - y] == kind
            &&& after.squares[n - x][y as int] == kind
            &&& after.squares[n - x][n - y] == kind
        }),
{
    let (x, y) = spec_bonus_cells(kind)[k];
    let n = GRID_SIZE - 1;
    assert(x <= CENTER && y <= CENTER);
    assert(spec_mirrors(spec_bonus_cells(kind)[k], x as int, y as int));
    lemma_mirrors_of_kind(kind, x as int, y as int);
    assert(spec_premium_at(x as int, y as int) == Some(kind));
    lemma_premium_layout(board, x as int, y as int);
    lemma_premium_layout(board, x as int, n - y);
    lemma_premium_layout(board, n - x, y as int);
    lemma_premium_layout(board, n - x, n - y);
}

/// A cell with a letter on it is not an anchor.
pub proof fn lemma_anchor_is_empty(board: Board, i: int, j: int)
    requires
        board.spec_is_anchor(i, j),
    ensures
        board.spec_is_empty(i, j),
        Board::spec_in_range(i, j),
{
    if board.spec_occupied(i, j) {
        assert(!board.spec_board_empty());
    }
}

/// On a board without letters the center is an anchor, and no other cell is.
pub proof fn lemma_empty_board_anchor(board: Board, i: int, j: int)
    requires
        board.spec_board_empty(),
    ensures
        board.spec_is_anchor(i, j) <==> (i == CENTER && j == CENTER),
{
    assert(!board.spec_occupied(i - 1, j));
    assert(!board.spec_occupied(i + 1, j));
    assert(!board.spec_occupied(i, j - 1));
    assert(!board.spec_occupied(i, j + 1));
}

/// Once a single tile is placed on a board without letters, the anchors are
/// the cells of the board next to the tile, above, below, left and right of
/// it; the cell of the tile is no anchor.
pub proof fn lemma_single_tile_anchors(board: Board, letter: char, x: int, y: int, i: int, j: int)
    requires
        board.spec_board_empty(),
        Board::spec_in_range(x, y),
    ensures
        ({
            let after = board.spec_with_word(seq![letter], x, y, 0).spec_with_anchors();
            &&& Board::spec_in_range(i, j) ==> (after.anchors[i][j] <==> ((i == x && (j == y - 1 || j
                == y + 1)) || (j == y && (i == x - 1 || i == x + 1))))
            &&& !after.anchors[x][y]
        }),
{
    let placed = board.spec_with_word(seq![letter], x, y, 0);
    assert forall|r: int, c: int| #[trigger] placed.spec_occupied(r, c) == (r == x && c == y) by {
        if Board::spec_in_range(r, c) {
            assert(!board.spec_occupied(r, c));
        }
    }
    assert(placed.spec_occupied(x, y));
    assert(!placed.spec_board_empty());
    assert(placed.spec_occupied(i - 1, j) == (i - 1 == x && j == y));
    assert(placed.spec_occupied(i + 1, j) == (i + 1 == x && j == y));
    assert(placed.spec_occupied(i, j - 1) == (i == x && j - 1 == y));
    assert(placed.spec_occupied(i, j + 1) == (i == x && j + 1 == y));
}

/// What a cross table holds. A cell without a letter directly above or below
/// it has no table. An anchor with such a letter has one: a letter of the
/// alphabet is in it exactly if the index stores the letter, then the letters
/// above read upwards, the separator and the letters below read downwards;
/// and the blank is in it exactly if some letter is.
pub proof fn lemma_cross_table(board: Board, index: &Gaddag, x: int, y: int)
    requires
        Board::spec_in_range(x, y),
    ensures
        ({
            let table = board.spec_cross_table(index, x, y);
            let up = board.spec_up_letters(x, y);
            let down = board.spec_down_letters(x, y);
            &&& (up.len() > 0 || down.len() > 0) == (board.spec_occupied(x - 1, y)
                || board.spec_occupied(x + 1, y))
            &&& up.len() == 0 && down.len() == 0 ==> table is None
            &&& board.anchors[x][y] && (up.len() > 0 || down.len() > 0) ==> {
                &&& table is Some
                &&& forall|letter: char|
                    spec_is_letter(letter) ==> (table->0.dom().contains(letter)
                        <==> #[trigger] index@.contains(spec_cross_path(letter, up, down)))
                &&& table->0.dom().contains(WILDCARD) <==> exists|letter: char|
                    spec_is_letter(letter) && #[trigger] table->0.dom().contains(letter)
            }
        }),
{
    let table = board.spec_cross_table(index, x, y);
    let up = board.spec_up_letters(x, y);
    let down = board.spec_down_letters(x, y);
    if board.anchors[x][y] && (up.len() > 0 || down.len() > 0) {
        let letters = table->0;
        if letters.dom().contains(WILDCARD) {
            let l = choose|l: char| board.spec_cross_fits(index, x, y, l);
            assert(spec_is_letter(l) && letters.dom().contains(l));
        }
        if exists|letter: char| spec_is_letter(letter) && #[trigger] letters.dom().contains(letter) {
            let l = choose|letter: char|
                spec_is_letter(letter) && #[trigger] letters.dom().contains(letter);
            assert(board.spec_cross_fits(index, x, y, l));
        }
    }
}

} // verus!

//! The board as text: its letters, its anchors and its cross tables, one
//! line for each row.

use crate::constants::{spec_tile_letter, tile_letter, GRID_SIZE, TILE_KINDS};
use crate::grid::{spec_table_view, Board, CrossTable, Grid, Square};
use crate::text::string_push;
use vstd::prelude::*;

verus! {

/// What a part of the text shows of each cell.
#[derive(Debug, Clone, Copy, PartialEq, Eq)]
pub enum Section {
    /// The letter on the cell, or a dot.
    Letters,
    /// A cross for an anchor, or a dot.
    Anchors,
    /// A dot for a cell without a cross table, a stroke for a table that
    /// holds no letter, else the first tile of the table.
    Tables,
}

/// The first kind of tile, from `k` on, that the table `t` holds.
pub open spec fn spec_first_kind(t: Map<char, nat>, k: int) -> Option<int>
    decreases TILE_KINDS - k,
{
    if k >= TILE_KINDS {
        None
    } else if t.dom().contains(spec_tile_letter(k)) {
        Some(k)
    } else {
        spec_first_kind(t, k + 1)
    }
}

/// The character that stands for the cell `(i, j)` in a section.
pub open spec fn spec_mark(board: Board, section: Section, i: int, j: int) -> char {
    match section {
        Section::Letters => match board.squares[i][j] {
            Square::Letter(c) => c,
            _ => '.',
        },
        Section::Anchors => if board.anchors[i][j] {
            'x'
        } else {
            '.'
        },
        Section::Tables => match board.tables[i][j] {
            None => '.',
            Some(t) => match spec_first_kind(t, 0) {
                Some(k) => spec_tile_letter(k),
                None => '/',
            },
        },
    }
}

/// The first `n` cells of row `i` in a section: each cell's character and a
/// space.
pub open spec fn spec_cells_text(board: Board, section: Section, i: int, n: int) -> Seq<char>
    decreases n,
{
    if n <= 0 {
        Seq::empty()
    } else {
        spec_cells_text(board, section, i, n - 1).push(spec_mark(board, section, i, n - 1)).push(' ')
    }
}

/// The first `n` rows in a section, each row on a line of its own.
pub open spec fn spec_rows_text(board: Board, section: Section, n: int) -> Seq<char>
    decreases n,
{
    if n <= 0 {
        Seq::empty()
    } else {
        (spec_rows_text(board, section, n - 1) + spec_cells_text(
            board,
            section,
            n - 1,
            GRID_SIZE as int,
        )).push('\n')
    }
}

/// The line above the letters.
pub open spec fn spec_letters_heading() -> Seq<char> {
    seq!['G', 'r', 'i', 'd', ':', '\n']
}

/// The lines above the anchors.
pub open spec fn spec_anchors_heading() -> Seq<char> {
    seq!['\n', 'A', 'n', 'c', 'h', 'o', 'r', 's', ':', '\n']
}

/// The lines above the cross tables.
pub open spec fn spec_tables_heading() -> Seq<char> {
    seq!['\n', 'C', 'r', 'o', 's', 's', 'w', 'o', 'r', 'd', 's', ':', '\n']
}

/// The board as text: a heading and the letters, a heading and the anchors,
/// a heading and the cross tables.
pub open spec fn spec_render(board: Board) -> Seq<char> {
    spec_letters_heading() + spec_rows_text(board, Section::Letters, GRID_SIZE as int)
        + spec_anchors_heading() + spec_rows_text(board, Section::Anchors, GRID_SIZE as int)
        + spec_tables_heading() + spec_rows_text(board, Section::Tables, GRID_SIZE as int)
}

/// Appends `chars` to `text`.
pub fn push_text(text: &mut String, chars: &[char])
    ensures
        final(text)@ == old(text)@ + chars@,
{
    let mut k: usize = 0;
    proof {
        assert(text@ =~= old(text)@ + chars@.take(0));
    }
    while k < chars.len()
        invariant
            k <= chars.len(),
            text@ == old(text)@ + chars@.take(k as int),
        decreases chars.len() - k,
    {
        string_push(text, chars[k]);
        k = k + 1;
        proof {
            assert(text@ =~= old(text)@ + chars@.take(k as int));
        }
    }
    proof {
        assert(chars@.take(k as int) =~= chars@);
    }
}

/// The character that stands for a cross table.
pub fn table_mark(table: &Option<CrossTable>) -> (mark: char)
    ensures
        mark == match spec_table_view(*table) {
            None => '.',
            Some(t) => match spec_first_kind(t, 0) {
                Some(k) => spec_tile_letter(k),
                None => '/',
            },
        },
{
    match table {
        None => '.',
        Some(t) => {
            let mut found: Option<usize> = None;
            let mut k: usize = TILE_KINDS;
            while k > 0
                invariant
                    k <= TILE_KINDS,
                    found matches Some(first) ==> first < TILE_KINDS,
                    spec_first_kind(t@, k as int) == match found {
                        Some(first) => Some(first as int),
                        None => None,
                    },
                decreases k,
            {
                k = k - 1;
                if t.get(tile_letter(k)).is_some() {
                    found = Some(k);
                }
            }
            match found {
                Some(first) => tile_letter(first),
                None => '/',
            }
        },
    }
}

impl Grid {
    /// The character that stands for the cell `(i, j)` in a section.
    pub fn mark(&self, section: Section, i: usize, j: usize) -> (mark: char)
        requires
            i < GRID_SIZE,
            j < GRID_SIZE,
        ensures
            mark == spec_mark(self@, section, i as int, j as int),
    {
        match section {
            Section::Letters => match self.squares[i][j] {
                Square::Letter(c) => c,
                _ => '.',
            },
            Section::Anchors => if self.anchors[i][j] {
                'x'
            } else {
                '.'
            },
            Section::Tables => table_mark(&self.crosswords[i][j]),
        }
    }

    /// Appends a section of the board to `text`.
    pub fn render_section(&self, section: Section, text: &mut String)
        ensures
            final(text)@ == old(text)@ + spec_rows_text(self@, section, GRID_SIZE as int),
    {
        let ghost board = self@;
        let mut i: usize = 0;
        proof {
            assert(text@ =~= old(text)@ + spec_rows_text(board, section, 0));
        }
        while i < GRID_SIZE
            invariant
                i <= GRID_SIZE,
                board == self@,
                text@ == old(text)@ + spec_rows_text(board, section, i as int),
            decreases GRID_SIZE - i,
        {
            let ghost before = text@;
            let mut j: usize = 0;
            proof {
                assert(text@ =~= before + spec_cells_text(board, section, i as int, 0));
            }
            while j < GRID_SIZE
                invariant
                    i < GRID_SIZE,
                    j <= GRID_SIZE,
                    board == self@,
                    text@ == before + spec_cells_text(board, section, i as int, j as int),
                decreases GRID_SIZE - j,
            {
                let mark = self.mark(section, i, j);
                string_push(text, mark);
                string_push(text, ' ');
                j = j + 1;
                proof {
                    assert(text@ =~= before + spec_cells_text(board, section, i as int, j as int));
                }
            }
            string_push(text, '\n');
            i = i + 1;
            proof {
                assert(text@ =~= old(text)@ + spec_rows_text(board, section, i as int));
            }
        }
    }

    /// The board as text: under a heading each, the letters, the anchors and
    /// the cross tables, row by row.
    pub fn render(&self) -> (text: String)
        ensures
            text@ == spec_render(self@),
    {
        let mut text = String::new();
        let heading = ['G', 'r', 'i', 'd', ':', '\n'];
        push_text(&mut text, heading.as_slice());
        self.render_section(Section::Letters, &mut text);
        let heading = ['\n', 'A', 'n', 'c', 'h', 'o', 'r', 's', ':', '\n'];
        push_text(&mut text, heading.as_slice());
        self.render_section(Section::Anchors, &mut text);
        let heading = ['\n', 'C', 'r', 'o', 's', 's', 'w', 'o', 'r', 'd', 's', ':', '\n'];
        push_text(&mut text, heading.as_slice());
        self.render_section(Section::Tables, &mut text);
        proof {
            assert(text@ =~= spec_render(self@));
        }
        text
    }
}

} // verus!

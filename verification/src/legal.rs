//! What the search finds is a placement the game allows: the letters lie in
//! one row between two free cells, they agree with the letters of the board,
//! every tile comes from the rack and fits its cross table, the word is in
//! the index, and rack and score are accounted for cell by cell.

use crate::constants::{
    spec_alphabet_letter, spec_bingo_bonus, spec_is_letter, spec_letter_value, spec_tile_index,
    spec_to_upper, ALPHABET_SIZE, GRID_SIZE, SEPARATOR, WILDCARD,
};
use crate::gaddag::{lemma_index_round_trip, spec_index_of, spec_rotation, Gaddag, ROOT};
use crate::grid::{
    lemma_anchor_is_empty, spec_letter_multiplier, spec_letters_value, spec_reference,
    spec_word_multiplier, Board,
};
use crate::rack::{lemma_without_counts, Rack};
use crate::solver::{
    spec_anchor_plays, spec_board_plays, spec_row_plays, spec_solutions, spec_attach_left,
    spec_attempt, spec_cross_separator, spec_expand, spec_filter_left, spec_force_level,
    spec_forced, spec_free_left, spec_initial, spec_left_limit, spec_left_parts, spec_placed_char,
    spec_play_of, spec_process_letter, spec_right_parts, spec_somes, spec_step, Branch, Play,
};
use vstd::prelude::*;

verus! {

/// What is counted along a word, cell by cell.
pub enum Measure {
    /// The value of the letters, with the letter premiums of the cells that
    /// get a tile.
    Flat,
    /// The scores of the words completed downwards by the tiles.
    Crossed,
    /// The number of tiles.
    Placed,
    /// The number of tiles of one kind.
    Used(char),
}

/// The tile that shows as `ch` in a word: the blank for a lower-case letter,
/// else the letter itself.
pub open spec fn spec_tile_of(ch: char) -> char {
    if spec_is_letter(ch) {
        ch
    } else {
        WILDCARD
    }
}

/// What the tile that shows as `ch` adds to the words read downwards on a
/// cell with the cross table `table`.
pub open spec fn spec_cross_entry(table: Option<Map<char, nat>>, ch: char) -> nat {
    match table {
        None => 0,
        Some(t) => if spec_is_letter(ch) {
            t[ch]
        } else if t.dom().contains(WILDCARD) {
            t[WILDCARD]
        } else {
            0
        },
    }
}

/// Whether `ch` may stand on the cell `(i, col)`: on a cell with a letter it
/// is that letter; on an empty cell it is a letter, in lower case for a
/// blank, that the cell's cross table holds if the cell has a table.
pub open spec fn spec_cell_ok(board: Board, i: int, col: int, ch: char) -> bool {
    if board.spec_occupied(i, col) {
        ch == board.squares[i][col]->Letter_0
    } else {
        spec_is_letter(spec_to_upper(ch)) && match board.tables[i][col] {
            Some(t) => t.dom().contains(spec_to_upper(ch)),
            None => true,
        }
    }
}

/// What the cell `(i, col)` with `ch` on it adds to a measure. A letter of
/// the board adds its plain value and nothing else.
pub open spec fn spec_term(board: Board, i: int, col: int, ch: char, measure: Measure) -> nat {
    if board.spec_occupied(i, col) {
        match measure {
            Measure::Flat => spec_letter_value(ch),
            _ => 0,
        }
    } else {
        match measure {
            Measure::Flat => spec_letter_value(ch) * spec_letter_multiplier(board.squares[i][col]),
            Measure::Crossed => spec_cross_entry(board.tables[i][col], ch),
            Measure::Placed => 1,
            Measure::Used(t) => if spec_tile_of(ch) == t {
                1
            } else {
                0
            },
        }
    }
}

/// A measure of the word `row` that lies on row `i` from column `c` on.
pub open spec fn spec_measure(board: Board, i: int, c: int, row: Seq<char>, measure: Measure) -> nat
    decreases row.len(),
{
    if row.len() == 0 {
        0
    } else {
        spec_measure(board, i, c, row.drop_last(), measure) + spec_term(
            board,
            i,
            c + row.len() - 1,
            row.last(),
            measure,
        )
    }
}

/// The factor that the cell `(i, col)` applies to a word that puts a tile on
/// it.
pub open spec fn spec_cell_factor(board: Board, i: int, col: int) -> nat {
    if board.spec_occupied(i, col) {
        1
    } else {
        spec_word_multiplier(board.squares[i][col])
    }
}

/// The product of the word premiums under the tiles of a word of `n` letters
/// that lies on row `i` from column `c` on.
pub open spec fn spec_factor(board: Board, i: int, c: int, n: nat) -> nat
    decreases n,
{
    if n == 0 {
        1
    } else {
        spec_factor(board, i, c, (n - 1) as nat) * spec_cell_factor(board, i, c + n - 1)
    }
}

/// How the search reads the letter `ch` on the cell `(i, col)`, for a word
/// through the anchor in column `j`: a letter of the board left of the
/// anchor as it stands, any other letter in upper case.
pub open spec fn spec_label(board: Board, i: int, j: int, col: int, ch: char) -> char {
    if board.spec_occupied(i, col) && col < j {
        ch
    } else {
        spec_to_upper(ch)
    }
}

/// How the search reads the word `row` that lies on row `i` from column `c`
/// on, for a word through the anchor in column `j`.
pub open spec fn spec_read(board: Board, i: int, j: int, c: int, row: Seq<char>) -> Seq<char>
    decreases row.len(),
{
    if row.len() == 0 {
        Seq::empty()
    } else {
        spec_read(board, i, j, c, row.drop_last()).push(
            spec_label(board, i, j, c + row.len() - 1, row.last()),
        )
    }
}

/// Whether the branch `b` accounts for the word `row` on row `i` from column
/// `c` on, played from the rack `rack`: every letter may stand on its cell,
/// and the counts of the branch are the measures of the word.
pub open spec fn spec_accounts(
    board: Board,
    rack: Rack,
    b: Branch,
    i: int,
    c: int,
    row: Seq<char>,
) -> bool {
    &&& 0 <= c
    &&& c + row.len() <= GRID_SIZE
    &&& forall|k: int| 0 <= k < row.len() ==> spec_cell_ok(board, i, c + k, #[trigger] row[k])
    &&& b.score.0 == spec_measure(board, i, c, row, Measure::Flat)
    &&& b.score.1 == spec_factor(board, i, c, row.len())
    &&& b.score.2 == spec_measure(board, i, c, row, Measure::Crossed)
    &&& b.letters_nb == spec_measure(board, i, c, row, Measure::Placed)
    &&& forall|t: char|
        spec_tile_index(t) is Some ==> b.rack.spec_count(t) + #[trigger] spec_measure(
            board,
            i,
            c,
            row,
            Measure::Used(t),
        ) == rack.spec_count(t)
}

/// Whether the word `row`, laid on row `i` of the board from column `c` on,
/// is a placement that the game allows through the anchor `(i, j)`: it lies
/// on the board, covers the anchor, which is a free cell, has a free cell or
/// the edge of the board on either side, agrees with the letters of the
/// board, fits the cross tables, and the index stores it, rotated at the
/// anchor, as the search reads it.
pub open spec fn spec_legal(board: Board, index: &Gaddag, i: int, j: int, c: int, row: Seq<char>) -> bool {
    &&& 0 <= i < GRID_SIZE
    &&& 0 <= c <= j < c + row.len() <= GRID_SIZE
    &&& !board.spec_occupied(i, c - 1)
    &&& !board.spec_occupied(i, c + row.len())
    &&& !board.spec_occupied(i, j)
    &&& forall|k: int| 0 <= k < row.len() ==> spec_cell_ok(board, i, c + k, #[trigger] row[k])
    &&& index@.contains(spec_rotation(spec_read(board, i, j, c, row), j - c))
}

/// What a word scores: the value of its letters times the product of the
/// word premiums under its tiles, plus the scores of the words its tiles
/// complete downwards, plus the bonus for the number of its tiles.
pub open spec fn spec_score(board: Board, i: int, c: int, row: Seq<char>) -> nat {
    spec_measure(board, i, c, row, Measure::Flat) * spec_factor(board, i, c, row.len())
        + spec_measure(board, i, c, row, Measure::Crossed) + spec_bingo_bonus(
        spec_measure(board, i, c, row, Measure::Placed),
    )
}

/// A measure of two words in a row is the sum of their measures.
pub proof fn lemma_measure_concat(
    board: Board,
    i: int,
    c: int,
    first: Seq<char>,
    second: Seq<char>,
    measure: Measure,
)
    ensures
        spec_measure(board, i, c, first + second, measure) == spec_measure(
            board,
            i,
            c,
            first,
            measure,
        ) + spec_measure(board, i, c + first.len(), second, measure),
    decreases second.len(),
{
    if second.len() == 0 {
        assert(first + second =~= first);
    } else {
        assert((first + second).drop_last() =~= first + second.drop_last());
        assert((first + second).last() == second.last());
        lemma_measure_concat(board, i, c, first, second.drop_last(), measure);
    }
}

/// The factor of two words in a row is the product of their factors.
pub proof fn lemma_factor_concat(board: Board, i: int, c: int, n: nat, m: nat)
    ensures
        spec_factor(board, i, c, n + m) == spec_factor(board, i, c, n) * spec_factor(
            board,
            i,
            c + n,
            m,
        ),
    decreases m,
{
    if m == 0 {
        assert(spec_factor(board, i, c, n) * 1 == spec_factor(board, i, c, n)) by (nonlinear_arith);
    } else {
        lemma_factor_concat(board, i, c, n, (m - 1) as nat);
        let a = spec_factor(board, i, c, n);
        let b = spec_factor(board, i, c + n, (m - 1) as nat);
        let f = spec_cell_factor(board, i, c + n + m - 1);
        assert((a * b) * f == a * (b * f)) by (nonlinear_arith);
        assert(spec_factor(board, i, c, n + m) == spec_factor(board, i, c, (n + m - 1) as nat) * f);
        assert(spec_factor(board, i, c + n, m) == b * f);
    }
}

/// The search reads two words in a row one after the other, letter for
/// letter.
pub proof fn lemma_read_concat(
    board: Board,
    i: int,
    j: int,
    c: int,
    first: Seq<char>,
    second: Seq<char>,
)
    ensures
        spec_read(board, i, j, c, first + second) == spec_read(board, i, j, c, first) + spec_read(
            board,
            i,
            j,
            c + first.len(),
            second,
        ),
        spec_read(board, i, j, c, second).len() == second.len(),
    decreases second.len(),
{
    if second.len() == 0 {
        assert(first + second =~= first);
        assert(spec_read(board, i, j, c, first) + Seq::<char>::empty() =~= spec_read(
            board,
            i,
            j,
            c,
            first,
        ));
    } else {
        assert((first + second).drop_last() =~= first + second.drop_last());
        assert((first + second).last() == second.last());
        lemma_read_concat(board, i, j, c, first, second.drop_last());
        lemma_read_concat(board, i, j, c, Seq::empty(), second.drop_last());
        let head = spec_read(board, i, j, c, first);
        let tail = spec_read(board, i, j, c + first.len(), second.drop_last());
        let x = spec_label(board, i, j, c + first.len() + second.len() - 1, second.last());
        assert((head + tail).push(x) =~= head + tail.push(x));
    }
}

/// Pushing a letter on a word pushes it on each rotation taken at an
/// earlier letter.
pub proof fn lemma_rotation_push(word: Seq<char>, m: int, x: char)
    requires
        0 <= m < word.len(),
    ensures
        spec_rotation(word.push(x), m) == spec_rotation(word, m).push(x),
{
    let longer = word.push(x);
    assert(longer.subrange(0, m + 1) =~= word.subrange(0, m + 1));
    assert(longer.subrange(m + 1, longer.len() as int) =~= word.subrange(
        m + 1,
        word.len() as int,
    ).push(x));
    assert(spec_rotation(longer, m) =~= spec_rotation(word, m).push(x));
}

/// The rotation of a word at its last letter is the word reversed, then the
/// separator.
pub proof fn lemma_rotation_at_end(word: Seq<char>)
    requires
        word.len() > 0,
    ensures
        spec_rotation(word, word.len() - 1) == word.reverse().push(SEPARATOR),
{
    assert(word.subrange(0, word.len() as int) =~= word);
    assert(spec_rotation(word, word.len() - 1) =~= word.reverse().push(SEPARATOR));
}

/// Each element that is kept was there: the place of an element of
/// `spec_somes(s)` in `s`.
pub proof fn lemma_somes_origin<T>(s: Seq<Option<T>>, k: int) -> (m: int)
    requires
        0 <= k < spec_somes(s).len(),
    ensures
        0 <= m < s.len(),
        s[m] == Some(spec_somes(s)[k]),
    decreases s.len(),
{
    let rest = spec_somes(s.drop_last());
    if s.last() is Some && k == rest.len() {
        s.len() - 1
    } else {
        lemma_somes_origin(s.drop_last(), k)
    }
}

/// Each branch of an expanded level comes from a branch of the level by one
/// step: the place of that branch in the level, and the place of the
/// element among the branches the step gives.
pub proof fn lemma_expand_origin(
    board: Board,
    index: &Gaddag,
    level: Seq<Branch>,
    i: int,
    j: int,
    k: int,
) -> (r: (int, int))
    requires
        0 <= k < spec_expand(board, index, level, i, j).len(),
    ensures
        0 <= r.0 < level.len(),
        0 <= r.1 < spec_step(board, index, level[r.0], i, j).len(),
        spec_expand(board, index, level, i, j)[k] == spec_step(board, index, level[r.0], i, j)[r.1],
    decreases level.len(),
{
    let before = spec_expand(board, index, level.drop_last(), i, j);
    if k < before.len() {
        lemma_expand_origin(board, index, level.drop_last(), i, j, k)
    } else {
        (level.len() - 1, k - before.len())
    }
}

/// Each branch that a step gives is a tile of the rack placed: a letter that
/// the rack holds, as itself, or the blank, if the rack holds one, as a
/// letter of the alphabet.
pub proof fn lemma_step_origin(board: Board, index: &Gaddag, b: Branch, i: int, j: int, k: int) -> (r:
    (char, char))
    requires
        0 <= k < spec_step(board, index, b, i, j).len(),
    ensures
        spec_process_letter(board, index, b, i, j, r.0, r.1) == Some(
            spec_step(board, index, b, i, j)[k],
        ),
        b.rack.spec_count(r.0) > 0,
        spec_is_letter(r.1),
        r.0 == r.1 || r.0 == WILDCARD,
{
    let attempts = Seq::new(
        2 * ALPHABET_SIZE as nat,
        |k: int| spec_attempt(board, index, b, i, j, k),
    );
    let m = lemma_somes_origin(attempts, k);
    assert(attempts[m] == spec_attempt(board, index, b, i, j, m));
    if m < ALPHABET_SIZE {
        (spec_alphabet_letter(m), spec_alphabet_letter(m))
    } else {
        (WILDCARD, spec_alphabet_letter(m - ALPHABET_SIZE))
    }
}

/// What holds of a branch while it grows to the left from the anchor
/// `(i, j)`: its letters, read from the last one back to the first, are a
/// word that ends on the anchor; the branch accounts for it; and its node is
/// where the index leads along the letters as the search reads them, from the
/// anchor leftwards.
pub open spec fn spec_left_inv(
    board: Board,
    index: &Gaddag,
    rack: Rack,
    i: int,
    j: int,
    b: Branch,
) -> bool {
    let n = b.prefix.len();
    let c = j + 1 - n;
    let row = b.prefix.reverse();
    &&& b.position == (
        i,
        if n == 0 {
            j
        } else {
            c
        },
    )
    &&& spec_accounts(board, rack, b, i, c, row)
    &&& index.spec_follow_path(ROOT, spec_read(board, i, j, c, row).reverse()) == Some(b.node)
    &&& b.node < index.node_count()
}

/// What holds of a branch once it has crossed the separator, at the anchor
/// `(i, j)`: its letters are a word that starts at its position, covers the
/// anchor and has a free cell or the edge of the board on its left; the
/// branch accounts for it; and its node is where the index leads along the
/// word as the search reads it, rotated at the anchor.
pub open spec fn spec_right_inv(
    board: Board,
    index: &Gaddag,
    rack: Rack,
    i: int,
    j: int,
    b: Branch,
) -> bool {
    let c = b.position.1;
    let row = b.prefix;
    &&& b.position.0 == i
    &&& c <= j < c + row.len()
    &&& !board.spec_occupied(i, c - 1)
    &&& spec_accounts(board, rack, b, i, c, row)
    &&& index.spec_follow_path(ROOT, spec_rotation(spec_read(board, i, j, c, row), j - c)) == Some(
        b.node,
    )
    &&& b.node < index.node_count()
}

/// The measures of a word of one letter are the terms of its cell.
pub proof fn lemma_single(board: Board, i: int, j: int, col: int, ch: char)
    ensures
        forall|measure: Measure| #[trigger]
            spec_measure(board, i, col, seq![ch], measure) == spec_term(board, i, col, ch, measure),
        spec_factor(board, i, col, 1) == spec_cell_factor(board, i, col),
        spec_read(board, i, j, col, seq![ch]) == seq![spec_label(board, i, j, col, ch)],
{
    let one = seq![ch];
    assert(one.drop_last() =~= Seq::<char>::empty());
    assert(one.last() == ch);
    assert forall|measure: Measure| #[trigger]
        spec_measure(board, i, col, one, measure) == spec_term(board, i, col, ch, measure) by {
        assert(spec_measure(board, i, col, one.drop_last(), measure) == 0);
    }
    assert(spec_factor(board, i, col, 0) == 1);
    assert(spec_factor(board, i, col, 1) == 1 * spec_cell_factor(board, i, col));
    assert(spec_read(board, i, j, col, one.drop_last()) =~= Seq::<char>::empty());
    assert(spec_read(board, i, j, col, one) =~= seq![spec_label(board, i, j, col, ch)]);
}

/// How a placed tile shows, reads and counts.
pub proof fn lemma_placed_char(letter: char, replacement: char)
    requires
        spec_is_letter(replacement),
        letter == replacement || letter == WILDCARD,
    ensures
        spec_to_upper(spec_placed_char(letter, replacement)) == replacement,
        spec_tile_of(spec_placed_char(letter, replacement)) == letter,
        spec_letter_value(spec_placed_char(letter, replacement)) == spec_letter_value(letter),
        spec_is_letter(spec_placed_char(letter, replacement)) == (letter != WILDCARD),
        spec_tile_index(letter) is Some,
{
}

/// The branch that has covered nothing is a branch that grows to the left.
pub proof fn lemma_initial(board: Board, index: &Gaddag, rack: Rack, i: int, j: int)
    requires
        index.wf(),
        0 <= j < GRID_SIZE,
    ensures
        spec_left_inv(board, index, rack, i, j, spec_initial(rack, i, j)),
{
    index.lemma_root();
    let b = spec_initial(rack, i, j);
    assert(b.prefix.reverse() =~= Seq::<char>::empty());
    assert(spec_read(board, i, j, j + 1, b.prefix.reverse()).reverse() =~= Seq::<char>::empty());
}

/// The accounts of a branch that has grown by one cell on its right.
pub proof fn lemma_push_accounts(
    board: Board,
    rack: Rack,
    b: Branch,
    r: Branch,
    i: int,
    c: int,
    row: Seq<char>,
    ch: char,
)
    requires
        spec_accounts(board, rack, b, i, c, row),
        c + row.len() < GRID_SIZE,
        spec_cell_ok(board, i, c + row.len(), ch),
        r.score.0 == b.score.0 + spec_term(board, i, c + row.len(), ch, Measure::Flat),
        r.score.1 == b.score.1 * spec_cell_factor(board, i, c + row.len()),
        r.score.2 == b.score.2 + spec_term(board, i, c + row.len(), ch, Measure::Crossed),
        r.letters_nb == b.letters_nb + spec_term(board, i, c + row.len(), ch, Measure::Placed),
        forall|t: char|
            spec_tile_index(t) is Some ==> r.rack.spec_count(t) + #[trigger] spec_term(
                board,
                i,
                c + row.len(),
                ch,
                Measure::Used(t),
            ) == b.rack.spec_count(t),
    ensures
        spec_accounts(board, rack, r, i, c, row.push(ch)),
{
    let longer = row.push(ch);
    let col = c + row.len();
    assert(longer.drop_last() =~= row);
    assert(longer.last() == ch);
    assert forall|k: int| 0 <= k < longer.len() implies spec_cell_ok(
        board,
        i,
        c + k,
        #[trigger] longer[k],
    ) by {
        if k < row.len() {
            assert(longer[k] == row[k]);
            assert(spec_cell_ok(board, i, c + k, row[k]));
        }
    }
    assert forall|t: char| spec_tile_index(t) is Some implies r.rack.spec_count(t)
        + #[trigger] spec_measure(board, i, c, longer, Measure::Used(t)) == rack.spec_count(t) by {
        lemma_measure_push(board, i, c, row, ch, Measure::Used(t));
        assert(b.rack.spec_count(t) + spec_measure(board, i, c, row, Measure::Used(t))
            == rack.spec_count(t));
        assert(r.rack.spec_count(t) + spec_term(board, i, col, ch, Measure::Used(t))
            == b.rack.spec_count(t));
    }
    lemma_measure_push(board, i, c, row, ch, Measure::Flat);
    lemma_measure_push(board, i, c, row, ch, Measure::Crossed);
    lemma_measure_push(board, i, c, row, ch, Measure::Placed);
    assert(spec_factor(board, i, c, longer.len()) == spec_factor(board, i, c, row.len())
        * spec_cell_factor(board, i, col));
}

/// A measure of a word with one more letter is the measure of the word plus
/// the term of the letter's cell.
pub proof fn lemma_measure_push(
    board: Board,
    i: int,
    c: int,
    row: Seq<char>,
    ch: char,
    measure: Measure,
)
    ensures
        spec_measure(board, i, c, row.push(ch), measure) == spec_measure(
            board,
            i,
            c,
            row,
            measure,
        ) + spec_term(board, i, c + row.len(), ch, measure),
{
    let longer = row.push(ch);
    assert(longer.drop_last() =~= row);
    assert(longer.last() == ch);
}

/// The accounts of a branch that has grown by a run of cells on its left.
pub proof fn lemma_concat_accounts(
    board: Board,
    rack: Rack,
    b: Branch,
    r: Branch,
    i: int,
    start: int,
    run: Seq<char>,
    row: Seq<char>,
)
    requires
        0 <= start,
        spec_accounts(board, rack, b, i, start + run.len(), row),
        forall|k: int| 0 <= k < run.len() ==> spec_cell_ok(board, i, start + k, #[trigger] run[k]),
        r.score.0 == b.score.0 + spec_measure(board, i, start, run, Measure::Flat),
        r.score.1 == spec_factor(board, i, start, run.len()) * b.score.1,
        r.score.2 == b.score.2 + spec_measure(board, i, start, run, Measure::Crossed),
        r.letters_nb == b.letters_nb + spec_measure(board, i, start, run, Measure::Placed),
        forall|t: char|
            spec_tile_index(t) is Some ==> r.rack.spec_count(t) + #[trigger] spec_measure(
                board,
                i,
                start,
                run,
                Measure::Used(t),
            ) == b.rack.spec_count(t),
    ensures
        spec_accounts(board, rack, r, i, start, run + row),
{
    let longer = run + row;
    let c = start + run.len();
    assert forall|k: int| 0 <= k < longer.len() implies spec_cell_ok(
        board,
        i,
        start + k,
        #[trigger] longer[k],
    ) by {
        if k < run.len() {
            assert(longer[k] == run[k]);
            assert(spec_cell_ok(board, i, start + k, run[k]));
        } else {
            assert(longer[k] == row[k - run.len()]);
            assert(spec_cell_ok(board, i, c + (k - run.len()), row[k - run.len()]));
        }
    }
    assert forall|t: char| spec_tile_index(t) is Some implies r.rack.spec_count(t)
        + #[trigger] spec_measure(board, i, start, longer, Measure::Used(t)) == rack.spec_count(
        t,
    ) by {
        lemma_measure_concat(board, i, start, run, row, Measure::Used(t));
        assert(b.rack.spec_count(t) + spec_measure(board, i, c, row, Measure::Used(t))
            == rack.spec_count(t));
        assert(r.rack.spec_count(t) + spec_measure(board, i, start, run, Measure::Used(t))
            == b.rack.spec_count(t));
    }
    lemma_measure_concat(board, i, start, run, row, Measure::Flat);
    lemma_measure_concat(board, i, start, run, row, Measure::Crossed);
    lemma_measure_concat(board, i, start, run, row, Measure::Placed);
    lemma_factor_concat(board, i, start, run.len(), row.len());
}

/// What a tile placed on a free cell adds to the counts of a branch.
pub proof fn lemma_placed_terms(
    board: Board,
    index: &Gaddag,
    b: Branch,
    i: int,
    col: int,
    letter: char,
    replacement: char,
)
    requires
        !board.spec_occupied(i, col),
        b.rack.spec_count(letter) > 0,
        spec_is_letter(replacement),
        letter == replacement || letter == WILDCARD,
        spec_process_letter(board, index, b, i, col, letter, replacement) is Some,
    ensures
        ({
            let r = spec_process_letter(board, index, b, i, col, letter, replacement)->0;
            let ch = spec_placed_char(letter, replacement);
            &&& r.prefix == b.prefix.push(ch)
            &&& r.node == index.spec_child(b.node, replacement)->0
            &&& index.spec_child(b.node, replacement) is Some
            &&& spec_to_upper(ch) == replacement
            &&& spec_label(board, i, col, col, ch) == replacement
            &&& spec_cell_ok(board, i, col, ch)
            &&& r.score.0 == b.score.0 + spec_term(board, i, col, ch, Measure::Flat)
            &&& r.score.1 == b.score.1 * spec_cell_factor(board, i, col)
            &&& r.score.2 == b.score.2 + spec_term(board, i, col, ch, Measure::Crossed)
            &&& r.letters_nb == b.letters_nb + spec_term(board, i, col, ch, Measure::Placed)
            &&& forall|t: char|
                spec_tile_index(t) is Some ==> r.rack.spec_count(t) + #[trigger] spec_term(
                    board,
                    i,
                    col,
                    ch,
                    Measure::Used(t),
                ) == b.rack.spec_count(t)
        }),
{
    let r = spec_process_letter(board, index, b, i, col, letter, replacement)->0;
    let ch = spec_placed_char(letter, replacement);
    lemma_placed_char(letter, replacement);
    assert forall|t: char| spec_tile_index(t) is Some implies r.rack.spec_count(t)
        + #[trigger] spec_term(board, i, col, ch, Measure::Used(t)) == b.rack.spec_count(t) by {
        lemma_without_counts(b.rack, letter, t);
    }
}

/// A tile placed left of a branch that grows to the left makes a branch that
/// grows to the left.
pub proof fn lemma_place_left(
    board: Board,
    index: &Gaddag,
    rack: Rack,
    i: int,
    j: int,
    b: Branch,
    letter: char,
    replacement: char,
)
    requires
        index.wf(),
        spec_left_inv(board, index, rack, i, j, b),
        0 <= j - b.prefix.len(),
        !board.spec_occupied(i, j - b.prefix.len()),
        b.rack.spec_count(letter) > 0,
        spec_is_letter(replacement),
        letter == replacement || letter == WILDCARD,
        spec_process_letter(board, index, b, i, j - b.prefix.len(), letter, replacement) is Some,
    ensures
        ({
            let r = spec_process_letter(
                board,
                index,
                b,
                i,
                j - b.prefix.len(),
                letter,
                replacement,
            )->0;
            spec_left_inv(board, index, rack, i, j, r) && r.prefix.len() == b.prefix.len() + 1
        }),
{
    let n = b.prefix.len();
    let col = j - n;
    let c = col + 1;
    let row = b.prefix.reverse();
    let ch = spec_placed_char(letter, replacement);
    let r = spec_process_letter(board, index, b, i, col, letter, replacement)->0;
    lemma_placed_terms(board, index, b, i, col, letter, replacement);
    lemma_single(board, i, j, col, ch);
    let run = seq![ch];
    assert(r.prefix.reverse() =~= run + row);
    assert(b.score.1 * spec_cell_factor(board, i, col) == spec_cell_factor(board, i, col)
        * b.score.1) by (nonlinear_arith);
    assert(spec_label(board, i, j, col, ch) == replacement);
    lemma_concat_accounts(board, rack, b, r, i, col, run, row);
    lemma_read_concat(board, i, j, col, run, row);
    let path = spec_read(board, i, j, c, row).reverse();
    assert(spec_read(board, i, j, col, run + row).reverse() =~= path.push(replacement));
    assert(path.push(replacement).drop_last() =~= path);
    index.lemma_child(b.node, replacement);
}

/// A tile placed right of a branch that has crossed the separator makes a
/// branch of the same kind.
pub proof fn lemma_place_right(
    board: Board,
    index: &Gaddag,
    rack: Rack,
    i: int,
    j: int,
    b: Branch,
    letter: char,
    replacement: char,
)
    requires
        index.wf(),
        spec_right_inv(board, index, rack, i, j, b),
        b.position.1 + b.prefix.len() < GRID_SIZE,
        !board.spec_occupied(i, b.position.1 + b.prefix.len()),
        b.rack.spec_count(letter) > 0,
        spec_is_letter(replacement),
        letter == replacement || letter == WILDCARD,
        spec_process_letter(
            board,
            index,
            b,
            i,
            b.position.1 + b.prefix.len(),
            letter,
            replacement,
        ) is Some,
    ensures
        ({
            let r = spec_process_letter(
                board,
                index,
                b,
                i,
                b.position.1 + b.prefix.len(),
                letter,
                replacement,
            )->0;
            &&& spec_right_inv(board, index, rack, i, j, r)
            &&& r.prefix.len() == b.prefix.len() + 1
            &&& r.position == b.position
        }),
{
    let c = b.position.1;
    let col = c + b.prefix.len();
    let row = b.prefix;
    let ch = spec_placed_char(letter, replacement);
    let r = spec_process_letter(board, index, b, i, col, letter, replacement)->0;
    lemma_placed_terms(board, index, b, i, col, letter, replacement);
    lemma_push_accounts(board, rack, b, r, i, c, row, ch);
    lemma_grow_right(board, index, i, j, c, row, ch, b.node, r.node);
}

/// The node of a branch that has crossed the separator and grows by one
/// letter on its right.
pub proof fn lemma_grow_right(
    board: Board,
    index: &Gaddag,
    i: int,
    j: int,
    c: int,
    row: Seq<char>,
    ch: char,
    node: usize,
    next: usize,
)
    requires
        index.wf(),
        c <= j < c + row.len(),
        node < index.node_count(),
        index.spec_follow_path(ROOT, spec_rotation(spec_read(board, i, j, c, row), j - c)) == Some(
            node,
        ),
        index.spec_child(node, spec_to_upper(ch)) == Some(next),
    ensures
        index.spec_follow_path(
            ROOT,
            spec_rotation(spec_read(board, i, j, c, row.push(ch)), j - c),
        ) == Some(next),
        next < index.node_count(),
{
    let longer = row.push(ch);
    let word = spec_read(board, i, j, c, row);
    let x = spec_to_upper(ch);
    assert(longer.drop_last() =~= row);
    assert(longer.last() == ch);
    lemma_read_concat(board, i, j, c, Seq::empty(), row);
    assert(spec_label(board, i, j, c + row.len(), ch) == x);
    assert(spec_read(board, i, j, c, longer) == word.push(x));
    lemma_rotation_push(word, j - c, x);
    let path = spec_rotation(word, j - c);
    assert(path.push(x).drop_last() =~= path);
    assert(path.push(x).last() == x);
    index.lemma_child(node, x);
}

/// A branch that has crossed the separator and grows over a letter of the
/// board stays a branch of the same kind.
pub proof fn lemma_forced_right(
    board: Board,
    index: &Gaddag,
    rack: Rack,
    i: int,
    j: int,
    b: Branch,
)
    requires
        index.wf(),
        spec_right_inv(board, index, rack, i, j, b),
        board.spec_occupied(i, b.position.1 + b.prefix.len()),
        spec_forced(
            index,
            b,
            board.squares[i][b.position.1 + b.prefix.len()]->Letter_0,
        ) is Some,
    ensures
        ({
            let r = spec_forced(
                index,
                b,
                board.squares[i][b.position.1 + b.prefix.len()]->Letter_0,
            )->0;
            &&& spec_right_inv(board, index, rack, i, j, r)
            &&& r.prefix.len() == b.prefix.len() + 1
            &&& r.position == b.position
        }),
{
    let c = b.position.1;
    let col = c + b.prefix.len();
    let row = b.prefix;
    let ch = board.squares[i][col]->Letter_0;
    let r = spec_forced(index, b, ch)->0;
    assert(b.score.1 * 1 == b.score.1) by (nonlinear_arith);
    lemma_push_accounts(board, rack, b, r, i, c, row, ch);
    lemma_grow_right(board, index, i, j, c, row, ch, b.node, r.node);
}

/// A branch that grows to the left, has a letter and a free cell or the edge
/// of the board on its left, and crosses the separator is a branch that has
/// crossed it.
pub proof fn lemma_cross_separator(
    board: Board,
    index: &Gaddag,
    rack: Rack,
    i: int,
    j: int,
    b: Branch,
)
    requires
        index.wf(),
        spec_left_inv(board, index, rack, i, j, b),
        b.prefix.len() > 0,
        !board.spec_occupied(i, j - b.prefix.len()),
        spec_cross_separator(index, b) is Some,
    ensures
        ({
            let r = spec_cross_separator(index, b)->0;
            &&& spec_right_inv(board, index, rack, i, j, r)
            &&& r.position.1 + r.prefix.len() == j + 1
        }),
{
    let n = b.prefix.len();
    let c = j + 1 - n;
    let row = b.prefix.reverse();
    let word = spec_read(board, i, j, c, row);
    lemma_read_concat(board, i, j, c, Seq::empty(), row);
    lemma_rotation_at_end(word);
    let path = word.reverse();
    assert(path.push(SEPARATOR).drop_last() =~= path);
    index.lemma_child(b.node, SEPARATOR);
}

/// Whether `run` is the letters of the board on row `i` from column `c` on.
pub open spec fn spec_is_board_run(board: Board, i: int, c: int, run: Seq<char>) -> bool {
    forall|k: int| 0 <= k < run.len() ==> spec_on_board(board, i, c + k, #[trigger] run[k])
}

/// Whether the letter `ch` stands on the cell `(i, col)` of the board.
pub open spec fn spec_on_board(board: Board, i: int, col: int, ch: char) -> bool {
    board.spec_occupied(i, col) && ch == board.squares[i][col]->Letter_0
}

/// The letters left of a cell are the letters of the cells left of it, one
/// after the other, up to the first cell without a letter.
pub proof fn lemma_left_letters(board: Board, i: int, j: int)
    requires
        0 <= j,
    ensures
        board.spec_left_letters(i, j).len() <= j,
        !board.spec_occupied(i, j - 1 - board.spec_left_letters(i, j).len()),
        spec_is_board_run(
            board,
            i,
            j - board.spec_left_letters(i, j).len(),
            board.spec_left_letters(i, j).reverse(),
        ),
    decreases j,
{
    let left = board.spec_left_letters(i, j);
    let run = left.reverse();
    if j > 0 && board.spec_occupied(i, j - 1) {
        lemma_left_letters(board, i, j - 1);
        let rest = board.spec_left_letters(i, j - 1);
        let x = board.squares[i][j - 1]->Letter_0;
        assert(left =~= seq![x] + rest);
        assert(run =~= rest.reverse().push(x));
        let start = j - left.len();
        assert forall|k: int| 0 <= k < run.len() implies spec_on_board(
            board,
            i,
            start + k,
            #[trigger] run[k],
        ) by {
            if k < rest.len() {
                assert(run[k] == rest.reverse()[k]);
                assert(spec_on_board(board, i, start + k, rest.reverse()[k]));
            }
        }
    } else {
        assert(left.len() == 0);
    }
}

/// What letters are worth does not depend on their order.
pub proof fn lemma_letters_value_reverse(letters: Seq<char>)
    ensures
        spec_letters_value(letters.reverse()) == spec_letters_value(letters),
    decreases letters.len(),
{
    if letters.len() > 0 {
        let rest = letters.drop_last();
        let x = letters.last();
        lemma_letters_value_reverse(rest);
        assert(letters.reverse() =~= seq![x] + rest.reverse());
        lemma_letters_value_concat(seq![x], rest.reverse());
        assert(seq![x].drop_last() =~= Seq::<char>::empty());
        assert(seq![x].last() == x);
        assert(spec_letters_value(seq![x].drop_last()) == 0);
        assert(spec_letters_value(seq![x]) == spec_letter_value(x));
    } else {
        assert(letters.reverse() =~= letters);
    }
}

/// What two runs of letters are worth together is the sum of what each is
/// worth.
pub proof fn lemma_letters_value_concat(first: Seq<char>, second: Seq<char>)
    ensures
        spec_letters_value(first + second) == spec_letters_value(first) + spec_letters_value(second),
    decreases second.len(),
{
    if second.len() == 0 {
        assert(first + second =~= first);
    } else {
        assert((first + second).drop_last() =~= first + second.drop_last());
        assert((first + second).last() == second.last());
        lemma_letters_value_concat(first, second.drop_last());
    }
}

/// What a letter of the board adds to the counts of a word that runs over
/// it, and how the search reads it left of the anchor.
pub proof fn lemma_board_cell(board: Board, i: int, j: int, col: int, ch: char)
    requires
        spec_on_board(board, i, col, ch),
    ensures
        spec_cell_ok(board, i, col, ch),
        spec_term(board, i, col, ch, Measure::Flat) == spec_letter_value(ch),
        spec_term(board, i, col, ch, Measure::Crossed) == 0,
        spec_term(board, i, col, ch, Measure::Placed) == 0,
        forall|t: char| #[trigger] spec_term(board, i, col, ch, Measure::Used(t)) == 0,
        spec_cell_factor(board, i, col) == 1,
        col < j ==> spec_label(board, i, j, col, ch) == ch,
{
}

/// A run of letters of the board left of the anchor: it counts for the plain
/// value of its letters, and the search reads it as it stands.
pub proof fn lemma_board_run(board: Board, i: int, j: int, c: int, run: Seq<char>)
    requires
        c + run.len() <= j,
        spec_is_board_run(board, i, c, run),
    ensures
        forall|k: int| 0 <= k < run.len() ==> spec_cell_ok(board, i, c + k, #[trigger] run[k]),
        spec_measure(board, i, c, run, Measure::Flat) == spec_letters_value(run),
        spec_measure(board, i, c, run, Measure::Crossed) == 0,
        spec_measure(board, i, c, run, Measure::Placed) == 0,
        forall|t: char| #[trigger] spec_measure(board, i, c, run, Measure::Used(t)) == 0,
        spec_factor(board, i, c, run.len()) == 1,
        spec_read(board, i, j, c, run) == run,
    decreases run.len(),
{
    if run.len() > 0 {
        let rest = run.drop_last();
        let ch = run.last();
        let col = c + rest.len();
        assert(run =~= rest.push(ch));
        assert forall|k: int| 0 <= k < rest.len() implies spec_on_board(
            board,
            i,
            c + k,
            #[trigger] rest[k],
        ) by {
            assert(rest[k] == run[k]);
            assert(spec_on_board(board, i, c + k, run[k]));
        }
        lemma_board_run(board, i, j, c, rest);
        assert(ch == run[run.len() - 1]);
        assert(spec_on_board(board, i, col, run[run.len() - 1]));
        lemma_board_cell(board, i, j, col, ch);
        assert forall|k: int| 0 <= k < run.len() implies spec_cell_ok(
            board,
            i,
            c + k,
            #[trigger] run[k],
        ) by {
            if k < rest.len() {
                assert(run[k] == rest[k]);
                assert(spec_cell_ok(board, i, c + k, rest[k]));
            }
        }
        lemma_measure_push(board, i, c, rest, ch, Measure::Flat);
        lemma_measure_push(board, i, c, rest, ch, Measure::Crossed);
        lemma_measure_push(board, i, c, rest, ch, Measure::Placed);
        assert forall|t: char| #[trigger] spec_measure(board, i, c, run, Measure::Used(t)) == 0 by {
            lemma_measure_push(board, i, c, rest, ch, Measure::Used(t));
            assert(spec_measure(board, i, c, rest, Measure::Used(t)) == 0);
            assert(spec_term(board, i, col, ch, Measure::Used(t)) == 0);
        }
        assert(spec_factor(board, i, c, rest.len()) == 1);
        assert(spec_factor(board, i, c, run.len()) == spec_factor(board, i, c, rest.len())
            * spec_cell_factor(board, i, col));
        assert(spec_read(board, i, j, c, run) =~= run);
    } else {
        assert forall|t: char| #[trigger] spec_measure(board, i, c, run, Measure::Used(t)) == 0 by {
            lemma_measure_of_nothing(board, i, c, run, Measure::Used(t));
        }
        assert(spec_read(board, i, j, c, run) =~= run);
    }
}

/// A word without letters measures nothing.
pub proof fn lemma_measure_of_nothing(board: Board, i: int, c: int, row: Seq<char>, measure: Measure)
    requires
        row.len() == 0,
    ensures
        spec_measure(board, i, c, row, measure) == 0,
{
}

/// A branch with one tile on the anchor that grows over the letters of the
/// board left of the anchor is a branch that grows to the left, and the
/// cell on its left is free or off the board.
pub proof fn lemma_attach_left(board: Board, index: &Gaddag, rack: Rack, i: int, j: int, b: Branch)
    requires
        index.wf(),
        0 <= j,
        spec_left_inv(board, index, rack, i, j, b),
        b.prefix.len() == 1,
        spec_attach_left(
            index,
            b,
            i,
            j - board.spec_left_letters(i, j).len(),
            board.spec_left_letters(i, j),
        ) is Some,
    ensures
        ({
            let left = board.spec_left_letters(i, j);
            let r = spec_attach_left(index, b, i, j - left.len(), left)->0;
            &&& spec_left_inv(board, index, rack, i, j, r)
            &&& r.prefix.len() == 1 + left.len()
            &&& !board.spec_occupied(i, j - r.prefix.len())
        }),
{
    let left = board.spec_left_letters(i, j);
    let start = j - left.len();
    let r = spec_attach_left(index, b, i, start, left)->0;
    let row = b.prefix.reverse();
    let run = left.reverse();
    lemma_left_letters(board, i, j);
    assert(r.prefix.reverse() =~= run + row);
    lemma_board_run(board, i, j, start, run);
    lemma_letters_value_reverse(left);
    assert(1 * b.score.1 == b.score.1) by (nonlinear_arith);
    lemma_concat_accounts(board, rack, b, r, i, start, run, row);
    lemma_read_concat(board, i, j, start, run, row);
    let path = spec_read(board, i, j, j, row).reverse();
    assert(spec_read(board, i, j, start, run + row).reverse() =~= path + left);
    index.lemma_follow_path_concat(ROOT, path, left);
    index.lemma_follow_path_spells(b.node, left);
}

/// How far a word may grow to the left: the limit lies on the row, at the
/// anchor or left of it, and no cell from the limit up to the anchor is
/// marked as an anchor.
pub proof fn lemma_left_limit_cells(board: Board, i: int, j: int)
    requires
        0 <= j,
    ensures
        0 <= spec_left_limit(board, i, j) <= j,
        forall|col: int| spec_left_limit(board, i, j) <= col < j ==> !#[trigger] board.anchors[i][col],
    decreases j,
{
    if j > 0 && !board.anchors[i][j - 1] {
        lemma_left_limit_cells(board, i, j - 1);
    }
}

/// Where the anchors of a row are those of the squares, the cells over which
/// a word may grow to the left of an anchor are free, and so is the cell
/// before them.
pub proof fn lemma_free_cells(board: Board, i: int, j: int, col: int)
    requires
        Board::spec_in_range(i, j),
        forall|x: int| 0 <= x < GRID_SIZE ==> board.anchors[i][x] == #[trigger] board.spec_is_anchor(i, x),
        board.anchors[i][j],
        !board.spec_occupied(i, j - 1),
        spec_left_limit(board, i, j) - 1 <= col <= j,
    ensures
        !board.spec_occupied(i, col),
    decreases j - col,
{
    lemma_left_limit_cells(board, i, j);
    if col == j {
        assert(board.spec_is_anchor(i, j));
        lemma_anchor_is_empty(board, i, j);
    } else if col < j - 1 && col >= 0 {
        lemma_free_cells(board, i, j, col + 1);
        assert(!board.anchors[i][col + 1]);
        assert(!board.spec_is_anchor(i, col + 1));
        assert(!board.spec_touches_letter(i, col + 1));
        assert(!board.spec_has_neighbor(i, col + 1));
    }
}

/// Every branch that grows from an anchor to the left over free cells is a
/// branch that grows to the left, and does not go beyond the limit.
pub proof fn lemma_free_left_sound(
    board: Board,
    index: &Gaddag,
    rack: Rack,
    i: int,
    j: int,
    level: Seq<Branch>,
    col: int,
    limit: int,
    k: int,
)
    requires
        index.wf(),
        0 <= limit <= j,
        limit - 1 <= col <= j,
        forall|x: int| limit - 1 <= x <= j ==> !#[trigger] board.spec_occupied(i, x),
        forall|m: int|
            0 <= m < level.len() ==> spec_left_inv(board, index, rack, i, j, #[trigger] level[m])
                && level[m].prefix.len() == j - col,
        0 <= k < spec_free_left(board, index, level, i, col, limit).len(),
    ensures
        ({
            let r = spec_free_left(board, index, level, i, col, limit)[k];
            spec_left_inv(board, index, rack, i, j, r) && r.prefix.len() <= j - limit + 1
        }),
    decreases col - limit + 1,
{
    if col >= limit {
        if k >= level.len() {
            let grown = spec_expand(board, index, level, i, col);
            assert forall|m: int| 0 <= m < grown.len() implies spec_left_inv(
                board,
                index,
                rack,
                i,
                j,
                #[trigger] grown[m],
            ) && grown[m].prefix.len() == j - (col - 1) by {
                let (from, at) = lemma_expand_origin(board, index, level, i, col, m);
                let b = level[from];
                let (letter, replacement) = lemma_step_origin(board, index, b, i, col, at);
                assert(!board.spec_occupied(i, col));
                lemma_place_left(board, index, rack, i, j, b, letter, replacement);
            }
            lemma_free_left_sound(
                board,
                index,
                rack,
                i,
                j,
                grown,
                col - 1,
                limit,
                k - level.len(),
            );
        }
    }
}

/// Every left part at an anchor is a branch that grows to the left and has
/// a free cell or the edge of the board on its left.
pub proof fn lemma_left_parts_sound(
    board: Board,
    index: &Gaddag,
    rack: Rack,
    i: int,
    j: int,
    k: int,
)
    requires
        index.wf(),
        Board::spec_in_range(i, j),
        forall|x: int| 0 <= x < GRID_SIZE ==> board.anchors[i][x] == #[trigger] board.spec_is_anchor(i, x),
        board.anchors[i][j],
        0 <= k < spec_left_parts(board, index, rack, i, j).len(),
    ensures
        ({
            let r = spec_left_parts(board, index, rack, i, j)[k];
            spec_left_inv(board, index, rack, i, j, r) && !board.spec_occupied(
                i,
                j - r.prefix.len(),
            )
        }),
{
    let initial = spec_initial(rack, i, j);
    lemma_initial(board, index, rack, i, j);
    assert(board.spec_is_anchor(i, j));
    lemma_anchor_is_empty(board, i, j);
    if j > 0 && board.spec_occupied(i, j - 1) {
        let left = board.spec_left_letters(i, j);
        let level = spec_step(board, index, initial, i, j);
        let outcomes = level.map_values(
            |b: Branch| spec_attach_left(index, b, i, j - left.len(), left),
        );
        let m = lemma_somes_origin(outcomes, k);
        let b = level[m];
        let (letter, replacement) = lemma_step_origin(board, index, initial, i, j, m);
        lemma_place_left(board, index, rack, i, j, initial, letter, replacement);
        lemma_attach_left(board, index, rack, i, j, b);
    } else {
        let limit = spec_left_limit(board, i, j);
        lemma_left_limit_cells(board, i, j);
        assert forall|x: int| limit - 1 <= x <= j implies !#[trigger] board.spec_occupied(i, x) by {
            lemma_free_cells(board, i, j, x);
        }
        let level = seq![initial];
        lemma_free_left_sound(board, index, rack, i, j, level, j, limit, k);
    }
}

/// Every left part that crosses the separator is a branch that has crossed
/// it and ends on the anchor, in an index where no stored sequence begins
/// with the separator.
pub proof fn lemma_filter_left_sound(
    board: Board,
    index: &Gaddag,
    rack: Rack,
    i: int,
    j: int,
    level: Seq<Branch>,
    k: int,
)
    requires
        index.wf(),
        index.spec_child(ROOT, SEPARATOR) is None,
        forall|m: int|
            0 <= m < level.len() ==> spec_left_inv(board, index, rack, i, j, #[trigger] level[m])
                && !board.spec_occupied(i, j - level[m].prefix.len()),
        0 <= k < spec_filter_left(index, level).len(),
    ensures
        ({
            let r = spec_filter_left(index, level)[k];
            spec_right_inv(board, index, rack, i, j, r) && r.position.1 + r.prefix.len() == j + 1
        }),
{
    let outcomes = level.map_values(|b: Branch| spec_cross_separator(index, b));
    let m = lemma_somes_origin(outcomes, k);
    let b = level[m];
    assert(spec_left_inv(board, index, rack, i, j, b));
    if b.prefix.len() == 0 {
        assert(b.prefix.reverse() =~= Seq::<char>::empty());
        assert(spec_read(board, i, j, j + 1, b.prefix.reverse()).reverse() =~= Seq::<
            char,
        >::empty());
        assert(b.node == ROOT);
    } else {
        lemma_cross_separator(board, index, rack, i, j, b);
    }
}

/// Every branch that comes from branches that have crossed the separator by
/// growing to the right is such a branch, and has a free cell or the edge of
/// the board on its right.
pub proof fn lemma_right_parts_sound(
    board: Board,
    index: &Gaddag,
    rack: Rack,
    i: int,
    j: int,
    level: Seq<Branch>,
    y: int,
    k: int,
)
    requires
        index.wf(),
        0 <= i < GRID_SIZE,
        0 <= y <= GRID_SIZE,
        forall|m: int|
            0 <= m < level.len() ==> spec_right_inv(board, index, rack, i, j, #[trigger] level[m])
                && level[m].position.1 + level[m].prefix.len() == y,
        0 <= k < spec_right_parts(board, index, level, i, y).len(),
    ensures
        ({
            let r = spec_right_parts(board, index, level, i, y)[k];
            spec_right_inv(board, index, rack, i, j, r) && !board.spec_occupied(
                i,
                r.position.1 + r.prefix.len(),
            )
        }),
    decreases GRID_SIZE - y,
{
    if y < GRID_SIZE {
        if board.squares[i][y] is Letter {
            let letter = board.squares[i][y]->Letter_0;
            let next = spec_force_level(index, level, letter);
            assert forall|m: int| 0 <= m < next.len() implies spec_right_inv(
                board,
                index,
                rack,
                i,
                j,
                #[trigger] next[m],
            ) && next[m].position.1 + next[m].prefix.len() == y + 1 by {
                let outcomes = level.map_values(|b: Branch| spec_forced(index, b, letter));
                let from = lemma_somes_origin(outcomes, m);
                let b = level[from];
                assert(board.spec_occupied(i, y));
                lemma_forced_right(board, index, rack, i, j, b);
            }
            lemma_right_parts_sound(board, index, rack, i, j, next, y + 1, k);
        } else if k >= level.len() {
            let next = spec_expand(board, index, level, i, y);
            assert forall|m: int| 0 <= m < next.len() implies spec_right_inv(
                board,
                index,
                rack,
                i,
                j,
                #[trigger] next[m],
            ) && next[m].position.1 + next[m].prefix.len() == y + 1 by {
                let (from, at) = lemma_expand_origin(board, index, level, i, y, m);
                let b = level[from];
                let (letter, replacement) = lemma_step_origin(board, index, b, i, y, at);
                assert(!board.spec_occupied(i, y));
                lemma_place_right(board, index, rack, i, j, b, letter, replacement);
            }
            lemma_right_parts_sound(board, index, rack, i, j, next, y + 1, k - level.len());
        } else {
            assert(!board.spec_occupied(i, y));
        }
    }
}

/// Whether `play` is the placement of its word on row `i` of the board from
/// column `c` on, through the anchor `(i, j)`: the game allows it, the
/// reference names its first cell and its direction, the score is that of the
/// word, and the rack is what is left of `rack` once the tiles are taken. For
/// a word that reads downwards (`horizontal` is false) the board is the
/// transposed one, on which rows are columns.
pub open spec fn spec_is_placement(
    board: Board,
    index: &Gaddag,
    rack: Rack,
    i: int,
    j: int,
    horizontal: bool,
    play: Play,
    c: int,
) -> bool {
    &&& spec_legal(board, index, i, j, c, play.word)
    &&& play.position == if horizontal {
        spec_reference(i, c, 0)
    } else {
        spec_reference(c, i, 1)
    }
    &&& play.score == spec_score(board, i, c, play.word)
    &&& forall|t: char|
        spec_tile_index(t) is Some ==> play.rack.spec_count(t) + #[trigger] spec_measure(
            board,
            i,
            c,
            play.word,
            Measure::Used(t),
        ) == rack.spec_count(t)
}

/// A placement puts no tile on a free cell whose cross table is there and
/// holds no letter: its word does not cover such a cell.
pub proof fn lemma_closed_cell_stays_free(
    board: Board,
    index: &Gaddag,
    rack: Rack,
    i: int,
    j: int,
    horizontal: bool,
    play: Play,
    c: int,
    col: int,
)
    requires
        spec_is_placement(board, index, rack, i, j, horizontal, play, c),
        !board.spec_occupied(i, col),
        board.tables[i][col] matches Some(t) && forall|x: char| !t.dom().contains(x),
    ensures
        !(c <= col < c + play.word.len()),
{
    if c <= col < c + play.word.len() {
        assert(spec_cell_ok(board, i, c + (col - c), play.word[col - c]));
    }
}

/// Every placement that the search lists at an anchor is a placement that
/// the game allows, with its reference, its score and the rack it leaves: on
/// a board whose anchors in that row are those of its squares, with an index
/// in which no stored sequence begins with the separator.
pub proof fn lemma_anchor_plays_sound(
    board: Board,
    index: &Gaddag,
    rack: Rack,
    i: int,
    j: int,
    horizontal: bool,
    k: int,
) -> (c: int)
    requires
        index.wf(),
        index.spec_child(ROOT, SEPARATOR) is None,
        Board::spec_in_range(i, j),
        forall|x: int| 0 <= x < GRID_SIZE ==> board.anchors[i][x] == #[trigger] board.spec_is_anchor(i, x),
        board.anchors[i][j],
        0 <= k < spec_anchor_plays(board, index, rack, i, j, horizontal).len(),
    ensures
        spec_is_placement(
            board,
            index,
            rack,
            i,
            j,
            horizontal,
            spec_anchor_plays(board, index, rack, i, j, horizontal)[k],
            c,
        ),
{
    let left = spec_left_parts(board, index, rack, i, j);
    let kept = spec_filter_left(index, left);
    let grown = spec_right_parts(board, index, kept, i, j + 1);
    let outcomes = grown.map_values(|b: Branch| spec_play_of(index, b, horizontal));
    let m = lemma_somes_origin(outcomes, k);
    let b = grown[m];
    assert forall|n: int| 0 <= n < left.len() implies spec_left_inv(
        board,
        index,
        rack,
        i,
        j,
        #[trigger] left[n],
    ) && !board.spec_occupied(i, j - left[n].prefix.len()) by {
        lemma_left_parts_sound(board, index, rack, i, j, n);
    }
    assert forall|n: int| 0 <= n < kept.len() implies spec_right_inv(
        board,
        index,
        rack,
        i,
        j,
        #[trigger] kept[n],
    ) && kept[n].position.1 + kept[n].prefix.len() == j + 1 by {
        lemma_filter_left_sound(board, index, rack, i, j, left, n);
    }
    lemma_right_parts_sound(board, index, rack, i, j, kept, j + 1, m);
    assert(board.spec_is_anchor(i, j));
    lemma_anchor_is_empty(board, i, j);
    b.position.1
}

/// Each placement listed for a row was found at an anchor of the row: the
/// column of that anchor, and the place of the placement among those found
/// there.
pub proof fn lemma_row_plays_origin(
    board: Board,
    index: &Gaddag,
    rack: Rack,
    horizontal: bool,
    i: int,
    n: int,
    k: int,
) -> (r: (int, int))
    requires
        0 <= k < spec_row_plays(board, index, rack, horizontal, i, n).len(),
    ensures
        0 <= r.0 < n,
        board.anchors[i][r.0],
        0 <= r.1 < spec_anchor_plays(board, index, rack, i, r.0, horizontal).len(),
        spec_row_plays(board, index, rack, horizontal, i, n)[k] == spec_anchor_plays(
            board,
            index,
            rack,
            i,
            r.0,
            horizontal,
        )[r.1],
    decreases n,
{
    let before = spec_row_plays(board, index, rack, horizontal, i, n - 1);
    if k < before.len() {
        lemma_row_plays_origin(board, index, rack, horizontal, i, n - 1, k)
    } else {
        (n - 1, k - before.len())
    }
}

/// Each placement listed for the board was found at an anchor: the row and
/// the column of that anchor, and the place of the placement among those
/// found there.
pub proof fn lemma_board_plays_origin(
    board: Board,
    index: &Gaddag,
    rack: Rack,
    horizontal: bool,
    n: int,
    k: int,
) -> (r: (int, int, int))
    requires
        0 <= k < spec_board_plays(board, index, rack, horizontal, n).len(),
    ensures
        0 <= r.0 < n,
        0 <= r.1 < GRID_SIZE,
        board.anchors[r.0][r.1],
        0 <= r.2 < spec_anchor_plays(board, index, rack, r.0, r.1, horizontal).len(),
        spec_board_plays(board, index, rack, horizontal, n)[k] == spec_anchor_plays(
            board,
            index,
            rack,
            r.0,
            r.1,
            horizontal,
        )[r.2],
    decreases n,
{
    let before = spec_board_plays(board, index, rack, horizontal, n - 1);
    if k < before.len() {
        lemma_board_plays_origin(board, index, rack, horizontal, n - 1, k)
    } else {
        let (j, at) = lemma_row_plays_origin(
            board,
            index,
            rack,
            horizontal,
            n - 1,
            GRID_SIZE as int,
            k - before.len(),
        );
        (n - 1, j, at)
    }
}

/// Whether the anchors marked on the board are those of its squares.
pub open spec fn spec_anchors_derived(board: Board) -> bool {
    forall|i: int, j: int|
        0 <= i < GRID_SIZE && 0 <= j < GRID_SIZE ==> board.anchors[i][j]
            == #[trigger] board.spec_is_anchor(i, j)
}

/// Every placement that the search lists on a board is a placement that the
/// game allows through some anchor, with its reference, its score and the
/// rack it leaves: the row and the column of the anchor, and the column in
/// which the word starts.
pub proof fn lemma_board_plays_sound(
    board: Board,
    index: &Gaddag,
    rack: Rack,
    horizontal: bool,
    k: int,
) -> (r: (int, int, int))
    requires
        index.wf(),
        index.spec_child(ROOT, SEPARATOR) is None,
        spec_anchors_derived(board),
        0 <= k < spec_board_plays(board, index, rack, horizontal, GRID_SIZE as int).len(),
    ensures
        Board::spec_in_range(r.0, r.1),
        board.anchors[r.0][r.1],
        spec_is_placement(
            board,
            index,
            rack,
            r.0,
            r.1,
            horizontal,
            spec_board_plays(board, index, rack, horizontal, GRID_SIZE as int)[k],
            r.2,
        ),
{
    let (i, j, at) = lemma_board_plays_origin(
        board,
        index,
        rack,
        horizontal,
        GRID_SIZE as int,
        k,
    );
    assert forall|x: int| 0 <= x < GRID_SIZE implies board.anchors[i][x]
        == #[trigger] board.spec_is_anchor(i, x) by {}
    let c = lemma_anchor_plays_sound(board, index, rack, i, j, horizontal, at);
    (i, j, c)
}

/// A board whose anchors and cross tables were made anew has the anchors of
/// its squares.
pub proof fn lemma_derived_anchors(board: Board, index: &Gaddag)
    ensures
        spec_anchors_derived(board.spec_with_anchors()),
        spec_anchors_derived(board.spec_derived(index)),
{
    let marked = board.spec_with_anchors();
    let derived = board.spec_derived(index);
    lemma_same_squares(board, marked);
    lemma_same_squares(board, derived);
    assert forall|i: int, j: int| 0 <= i < GRID_SIZE && 0 <= j < GRID_SIZE implies marked.anchors[i][j]
        == #[trigger] marked.spec_is_anchor(i, j) by {
        assert(marked.anchors[i][j] == board.spec_is_anchor(i, j));
    }
    assert forall|i: int, j: int| 0 <= i < GRID_SIZE && 0 <= j < GRID_SIZE implies derived.anchors[i][j]
        == #[trigger] derived.spec_is_anchor(i, j) by {
        assert(derived.anchors[i][j] == board.spec_is_anchor(i, j));
    }
}

/// Boards with the same squares have the same anchors to derive.
pub proof fn lemma_same_squares(first: Board, second: Board)
    requires
        first.squares == second.squares,
    ensures
        forall|i: int, j: int| #[trigger] first.spec_is_anchor(i, j) == second.spec_is_anchor(i, j),
        forall|i: int, j: int| #[trigger] first.spec_occupied(i, j) == second.spec_occupied(i, j),
{
    assert forall|i: int, j: int| #[trigger] first.spec_occupied(i, j) == second.spec_occupied(i, j) by {}
    assert(first.spec_board_empty() == second.spec_board_empty()) by {
        if first.spec_board_empty() {
            assert forall|i: int, j: int| !#[trigger] second.spec_occupied(i, j) by {
                assert(!first.spec_occupied(i, j));
            }
        }
        if second.spec_board_empty() {
            assert forall|i: int, j: int| !#[trigger] first.spec_occupied(i, j) by {
                assert(!second.spec_occupied(i, j));
            }
        }
    }
    assert forall|i: int, j: int| #[trigger]
        first.spec_is_anchor(i, j) == second.spec_is_anchor(i, j) by {
        assert(first.spec_occupied(i - 1, j) == second.spec_occupied(i - 1, j));
        assert(first.spec_occupied(i + 1, j) == second.spec_occupied(i + 1, j));
        assert(first.spec_occupied(i, j - 1) == second.spec_occupied(i, j - 1));
        assert(first.spec_occupied(i, j + 1) == second.spec_occupied(i, j + 1));
        assert(first.spec_occupied(i, j) == second.spec_occupied(i, j));
    }
}

/// What fitting a cross table means: on a board that is up to date, a tile
/// that may stand on a free cell with a letter directly above or below it
/// makes, with the letters above and below, a sequence that the index
/// stores.
pub proof fn lemma_tile_fits_its_column(board: Board, index: &Gaddag, i: int, col: int, ch: char)
    requires
        Board::spec_in_range(i, col),
        board.anchors[i][col] == board.spec_is_anchor(i, col),
        board.tables[i][col] == board.spec_cross_table(index, i, col),
        !board.spec_occupied(i, col),
        spec_cell_ok(board, i, col, ch),
        board.spec_occupied(i - 1, col) || board.spec_occupied(i + 1, col),
    ensures
        board.spec_cross_fits(index, i, col, spec_to_upper(ch)),
{
    crate::grid::lemma_cross_table(board, index, i, col);
    assert(board.spec_has_neighbor(i, col));
    assert(board.spec_touches_letter(i, col));
}

/// Every placement that a generation lists is a placement that the game
/// allows: of a word that reads to the right on the board, or of a word that
/// reads downwards, which reads to the right on the transposed board. The
/// result says which of the two, the row and the column of an anchor that
/// the word covers, and the column in which the word starts.
pub proof fn lemma_solutions_sound(board: Board, index: &Gaddag, rack: Rack, k: int) -> (r: (
    bool,
    int,
    int,
    int,
))
    requires
        index.wf(),
        index.spec_child(ROOT, SEPARATOR) is None,
        spec_anchors_derived(board),
        0 <= k < spec_solutions(board, index, rack).len(),
    ensures
        Board::spec_in_range(r.1, r.2),
        spec_is_placement(
            if r.0 {
                board
            } else {
                board.spec_transposed().spec_derived(index)
            },
            index,
            rack,
            r.1,
            r.2,
            r.0,
            spec_solutions(board, index, rack)[k],
            r.3,
        ),
{
    let across = spec_board_plays(board, index, rack, true, GRID_SIZE as int);
    if k < across.len() {
        let (i, j, c) = lemma_board_plays_sound(board, index, rack, true, k);
        (true, i, j, c)
    } else {
        let turned = board.spec_transposed().spec_derived(index);
        lemma_derived_anchors(board.spec_transposed(), index);
        let (i, j, c) = lemma_board_plays_sound(turned, index, rack, false, k - across.len());
        (false, i, j, c)
    }
}

/// The search reads each letter of a word by itself.
pub proof fn lemma_read_letter(board: Board, i: int, j: int, c: int, row: Seq<char>, k: int)
    requires
        0 <= k < row.len(),
    ensures
        spec_read(board, i, j, c, row).len() == row.len(),
        spec_read(board, i, j, c, row)[k] == spec_label(board, i, j, c + k, row[k]),
    decreases row.len(),
{
    lemma_read_concat(board, i, j, c, Seq::empty(), row);
    lemma_read_concat(board, i, j, c, Seq::empty(), row.drop_last());
    if k < row.len() - 1 {
        lemma_read_letter(board, i, j, c, row.drop_last(), k);
    }
}

/// The word of a placement that the game allows is a word of the list the
/// index was made of, as the search reads it, if no letter of the word is the
/// separator.
pub proof fn lemma_legal_word_is_listed(
    board: Board,
    index: &Gaddag,
    words: Seq<Seq<char>>,
    i: int,
    j: int,
    c: int,
    row: Seq<char>,
)
    requires
        spec_legal(board, index, i, j, c, row),
        index@ == spec_index_of(words),
        forall|k: int| 0 <= k < row.len() ==> #[trigger] row[k] != SEPARATOR,
    ensures
        words.contains(spec_read(board, i, j, c, row)),
{
    let word = spec_read(board, i, j, c, row);
    lemma_read_concat(board, i, j, c, Seq::empty(), row);
    assert forall|k: int| 0 <= k < word.len() implies word[k] != SEPARATOR by {
        lemma_read_letter(board, i, j, c, row, k);
        assert(row[k] != SEPARATOR);
    }
    lemma_index_round_trip(words, word, j - c);
}

} // verus!

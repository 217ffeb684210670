//! Nothing is missing: a placement that the game allows and the rack can
//! make is found by the search, at the leftmost anchor that its word covers.

use crate::constants::{
    spec_alphabet_letter, spec_is_letter, spec_tile_index, spec_to_upper, ALPHABET_SIZE, GRID_SIZE,
    SEPARATOR, WILDCARD,
};
use crate::gaddag::{lemma_index_round_trip, spec_index_of, spec_rotation, Gaddag, ROOT};
use crate::grid::{lemma_anchor_is_empty, lemma_reference_unique, spec_reference, Board};
use crate::legal::{
    lemma_board_plays_sound, lemma_derived_anchors, lemma_legal_word_is_listed,
    spec_anchors_derived, lemma_attach_left, lemma_cross_separator, lemma_forced_right, lemma_free_cells, lemma_initial,
    lemma_left_letters, lemma_left_limit_cells, lemma_measure_concat, lemma_measure_push,
    lemma_place_left, lemma_place_right, lemma_read_concat, lemma_read_letter, lemma_single,
    spec_accounts, spec_cell_ok, spec_is_placement, spec_left_inv, spec_legal, spec_measure,
    spec_on_board, spec_read, spec_right_inv, spec_tile_of, Measure,
};
use crate::rack::Rack;
use crate::solver::{
    spec_anchor_plays, spec_board_plays, spec_row_plays, spec_solutions, spec_attach_left,
    spec_attempt, spec_cross_separator, spec_expand, spec_filter_left, spec_force_level,
    spec_forced, spec_free_left, spec_initial, spec_left_limit, spec_left_parts, spec_placed_char,
    spec_play_of, spec_process_letter, spec_right_parts, spec_somes, spec_step, Branch,
};
use vstd::prelude::*;

verus! {

/// Each element that is there is kept: the place in `spec_somes(s)` of the
/// element at place `m` of `s`.
pub proof fn lemma_somes_member<T>(s: Seq<Option<T>>, m: int) -> (k: int)
    requires
        0 <= m < s.len(),
        s[m] is Some,
    ensures
        0 <= k < spec_somes(s).len(),
        spec_somes(s)[k] == s[m]->0,
    decreases s.len(),
{
    let rest = spec_somes(s.drop_last());
    if m == s.len() - 1 {
        rest.len() as int
    } else {
        lemma_somes_member(s.drop_last(), m)
    }
}

/// A tile that can be placed is among the branches of the step: a letter
/// that the rack holds, as itself, or the blank, if the rack holds one, as a
/// letter of the alphabet.
pub proof fn lemma_step_member(
    board: Board,
    index: &Gaddag,
    b: Branch,
    i: int,
    j: int,
    letter: char,
    replacement: char,
) -> (k: int)
    requires
        b.rack.spec_count(letter) > 0,
        spec_is_letter(replacement),
        letter == replacement || letter == WILDCARD,
        spec_process_letter(board, index, b, i, j, letter, replacement) is Some,
    ensures
        0 <= k < spec_step(board, index, b, i, j).len(),
        spec_step(board, index, b, i, j)[k] == spec_process_letter(
            board,
            index,
            b,
            i,
            j,
            letter,
            replacement,
        )->0,
{
    let attempts = Seq::new(
        2 * ALPHABET_SIZE as nat,
        |k: int| spec_attempt(board, index, b, i, j, k),
    );
    let kind = replacement as u32 - 65;
    assert(spec_alphabet_letter(kind as int) == replacement);
    let m: int = if letter == replacement {
        kind as int
    } else {
        kind + ALPHABET_SIZE
    };
    assert(attempts[m] == spec_attempt(board, index, b, i, j, m));
    lemma_somes_member(attempts, m)
}

/// What a step from a branch of a level gives is among the branches of the
/// expanded level.
pub proof fn lemma_expand_member(
    board: Board,
    index: &Gaddag,
    level: Seq<Branch>,
    i: int,
    j: int,
    m: int,
    at: int,
) -> (k: int)
    requires
        0 <= m < level.len(),
        0 <= at < spec_step(board, index, level[m], i, j).len(),
    ensures
        0 <= k < spec_expand(board, index, level, i, j).len(),
        spec_expand(board, index, level, i, j)[k] == spec_step(board, index, level[m], i, j)[at],
    decreases level.len(),
{
    let before = spec_expand(board, index, level.drop_last(), i, j);
    if m == level.len() - 1 {
        before.len() + at
    } else {
        lemma_expand_member(board, index, level.drop_last(), i, j, m, at)
    }
}

/// The search reads a part of a word as it reads the part within the word.
pub proof fn lemma_read_part(
    board: Board,
    i: int,
    j: int,
    c: int,
    row: Seq<char>,
    from: int,
    to: int,
)
    requires
        0 <= from <= to <= row.len(),
    ensures
        spec_read(board, i, j, c + from, row.subrange(from, to)) == spec_read(
            board,
            i,
            j,
            c,
            row,
        ).subrange(from, to),
        spec_read(board, i, j, c, row).len() == row.len(),
{
    let head = row.subrange(0, from);
    let part = row.subrange(from, to);
    let tail = row.subrange(to, row.len() as int);
    assert(row =~= (head + part) + tail);
    lemma_read_concat(board, i, j, c, head + part, tail);
    lemma_read_concat(board, i, j, c, head, part);
    lemma_read_concat(board, i, j, c, Seq::empty(), head);
    lemma_read_concat(board, i, j, c, Seq::empty(), row);
    lemma_read_concat(board, i, j, c + from, Seq::empty(), part);
    let whole = spec_read(board, i, j, c, row);
    let first = spec_read(board, i, j, c, head);
    let second = spec_read(board, i, j, c + from, part);
    let third = spec_read(board, i, j, c + to, tail);
    assert(whole == (first + second) + third);
    assert(((first + second) + third).subrange(from, to) =~= second);
}

/// A part of a word measures no more than the word.
pub proof fn lemma_measure_part(
    board: Board,
    i: int,
    c: int,
    row: Seq<char>,
    from: int,
    to: int,
    measure: Measure,
)
    requires
        0 <= from <= to <= row.len(),
    ensures
        spec_measure(board, i, c + from, row.subrange(from, to), measure) <= spec_measure(
            board,
            i,
            c,
            row,
            measure,
        ),
{
    let head = row.subrange(0, from);
    let part = row.subrange(from, to);
    let tail = row.subrange(to, row.len() as int);
    assert(row =~= (head + part) + tail);
    lemma_measure_concat(board, i, c, head + part, tail, measure);
    lemma_measure_concat(board, i, c, head, part, measure);
}

/// How a letter of a word is placed: the tile it takes, and the letter the
/// tile stands for, show as the letter again.
pub proof fn lemma_tile_shows(ch: char)
    requires
        spec_is_letter(spec_to_upper(ch)),
    ensures
        spec_placed_char(spec_tile_of(ch), spec_to_upper(ch)) == ch,
        spec_is_letter(spec_to_upper(ch)),
        spec_tile_of(ch) == spec_to_upper(ch) || spec_tile_of(ch) == WILDCARD,
        spec_tile_index(spec_tile_of(ch)) is Some,
{
}

/// A part of a path that the index stores can be walked from the root, and
/// one more label leads on from where it ends.
pub proof fn lemma_walk_on(index: &Gaddag, path: Seq<char>, n: int)
    requires
        index@.contains(path),
        0 <= n < path.len(),
    ensures
        index.spec_follow_path(ROOT, path.take(n)) is Some,
        index.spec_child(index.spec_follow_path(ROOT, path.take(n))->0, path[n]) is Some,
{
    index.lemma_follow_path_part(ROOT, path, n);
    index.lemma_follow_path_part(ROOT, path, n + 1);
    assert(path.take(n + 1).drop_last() =~= path.take(n));
    assert(path.take(n + 1).last() == path[n]);
}

/// Whether the search at the anchor `(i, j)` is to find the word `row` laid
/// on row `i` from column `c` on: the anchors of the row are those of the
/// squares, the cell is marked as an anchor and is the leftmost anchor under
/// the word, the game allows the placement, and the rack holds the tiles.
pub open spec fn spec_findable(
    board: Board,
    index: &Gaddag,
    rack: Rack,
    i: int,
    j: int,
    c: int,
    row: Seq<char>,
) -> bool {
    &&& Board::spec_in_range(i, j)
    &&& forall|x: int|
        0 <= x < GRID_SIZE ==> board.anchors[i][x] == #[trigger] board.spec_is_anchor(i, x)
    &&& board.anchors[i][j]
    &&& spec_legal(board, index, i, j, c, row)
    &&& forall|x: int| c <= x < j ==> !#[trigger] board.anchors[i][x]
    &&& forall|t: char|
        spec_tile_index(t) is Some ==> #[trigger] spec_measure(board, i, c, row, Measure::Used(t))
            <= rack.spec_count(t)
}

/// The path of a word in the index, up to the letter at place `t` right of
/// the anchor: it is the path of the word's first `t` letters.
pub proof fn lemma_path_right(word: Seq<char>, m: int, t: int)
    requires
        0 <= m < t <= word.len(),
    ensures
        spec_rotation(word.take(t), m) == spec_rotation(word, m).take(t + 1),
        t < word.len() ==> spec_rotation(word, m)[t + 1] == word[t],
        spec_rotation(word, m).len() == word.len() + 1,
{
    let part = word.take(t);
    assert(part.subrange(0, m + 1) =~= word.subrange(0, m + 1));
    assert(spec_rotation(part, m) =~= spec_rotation(word, m).take(t + 1));
}

/// The path of a word in the index, from the anchor leftwards: its first `t`
/// labels are the `t` letters that end on the anchor, reversed; then comes
/// the letter before them, or the separator when no letter is left.
pub proof fn lemma_path_left(word: Seq<char>, m: int, t: int)
    requires
        0 <= t <= m + 1 <= word.len(),
    ensures
        word.subrange(m + 1 - t, m + 1).reverse() == spec_rotation(word, m).take(t),
        t <= m ==> spec_rotation(word, m)[t] == word[m - t],
        t == m + 1 ==> spec_rotation(word, m)[t] == SEPARATOR,
        spec_rotation(word, m).len() == word.len() + 1,
{
    assert(word.subrange(m + 1 - t, m + 1).reverse() =~= spec_rotation(word, m).take(t));
}

/// The rack of a branch that accounts for a part of a findable word still
/// holds the tile for a further letter of the word on a free cell.
pub proof fn lemma_tile_at_hand(
    board: Board,
    rack: Rack,
    b: Branch,
    i: int,
    c: int,
    row: Seq<char>,
    from: int,
    to: int,
    at: int,
)
    requires
        0 <= from <= to <= row.len(),
        0 <= at < row.len(),
        at == from - 1 || at == to,
        spec_accounts(board, rack, b, i, c + from, row.subrange(from, to)),
        !board.spec_occupied(i, c + at),
        spec_tile_index(spec_tile_of(row[at])) is Some,
        spec_measure(board, i, c, row, Measure::Used(spec_tile_of(row[at]))) <= rack.spec_count(
            spec_tile_of(row[at]),
        ),
    ensures
        b.rack.spec_count(spec_tile_of(row[at])) > 0,
{
    let tile = spec_tile_of(row[at]);
    let measure = Measure::Used(tile);
    let part = row.subrange(from, to);
    if at == to {
        let longer = row.subrange(from, to + 1);
        assert(longer =~= part.push(row[at]));
        lemma_measure_push(board, i, c + from, part, row[at], measure);
        lemma_measure_part(board, i, c, row, from, to + 1, measure);
    } else {
        let longer = row.subrange(from - 1, to);
        assert(longer =~= seq![row[at]] + part);
        lemma_measure_concat(board, i, c + at, seq![row[at]], part, measure);
        lemma_single(board, i, 0, c + at, row[at]);
        lemma_measure_part(board, i, c, row, from - 1, to, measure);
    }
}

/// The branch that covers the first `t` letters of a findable word, beyond
/// the anchor, grows by the next letter of the word.
pub proof fn lemma_next_right(
    board: Board,
    index: &Gaddag,
    rack: Rack,
    i: int,
    j: int,
    c: int,
    row: Seq<char>,
    b: Branch,
    t: int,
)
    requires
        index.wf(),
        spec_findable(board, index, rack, i, j, c, row),
        j - c < t < row.len(),
        spec_right_inv(board, index, rack, i, j, b),
        b.position == (i, c),
        b.prefix == row.take(t),
    ensures
        board.spec_occupied(i, c + t) ==> spec_forced(index, b, row[t]) is Some && row[t]
            == board.squares[i][c + t]->Letter_0,
        !board.spec_occupied(i, c + t) ==> spec_process_letter(
            board,
            index,
            b,
            i,
            c + t,
            spec_tile_of(row[t]),
            spec_to_upper(row[t]),
        ) is Some && b.rack.spec_count(spec_tile_of(row[t])) > 0 && spec_placed_char(
            spec_tile_of(row[t]),
            spec_to_upper(row[t]),
        ) == row[t] && spec_is_letter(spec_to_upper(row[t])) && (spec_tile_of(row[t])
            == spec_to_upper(row[t]) || spec_tile_of(row[t]) == WILDCARD),
{
    let word = spec_read(board, i, j, c, row);
    let path = spec_rotation(word, j - c);
    let ch = row[t];
    lemma_read_part(board, i, j, c, row, 0, t);
    assert(row.subrange(0, t) =~= row.take(t));
    assert(word.subrange(0, t) =~= word.take(t));
    lemma_path_right(word, j - c, t);
    lemma_walk_on(index, path, t + 1);
    lemma_read_letter(board, i, j, c, row, t);
    assert(path[t + 1] == spec_to_upper(ch));
    assert(spec_cell_ok(board, i, c + t, row[t]));
    if !board.spec_occupied(i, c + t) {
        lemma_tile_shows(ch);
        assert(row.take(t) =~= row.subrange(0, t));
        lemma_tile_at_hand(board, rack, b, i, c, row, 0, t, t);
    }
}

/// A branch that covers the first letters of a findable word, beyond the
/// anchor, leads to a branch that covers the whole word among those that
/// the growth to the right gives.
pub proof fn lemma_right_member(
    board: Board,
    index: &Gaddag,
    rack: Rack,
    i: int,
    j: int,
    c: int,
    row: Seq<char>,
    level: Seq<Branch>,
    y: int,
    m: int,
) -> (k: int)
    requires
        index.wf(),
        spec_findable(board, index, rack, i, j, c, row),
        j < y <= c + row.len(),
        0 <= m < level.len(),
        spec_right_inv(board, index, rack, i, j, level[m]),
        level[m].position == (i, c),
        level[m].prefix == row.take(y - c),
    ensures
        0 <= k < spec_right_parts(board, index, level, i, y).len(),
        spec_right_parts(board, index, level, i, y)[k].prefix == row,
        spec_right_parts(board, index, level, i, y)[k].position == (i, c),
        spec_right_inv(board, index, rack, i, j, spec_right_parts(board, index, level, i, y)[k]),
    decreases c + row.len() - y,
{
    let b = level[m];
    let t = y - c;
    if t == row.len() {
        assert(row.take(t) =~= row);
        m
    } else {
        lemma_next_right(board, index, rack, i, j, c, row, b, t);
        let ch = row[t];
        assert(row.take(t + 1) =~= row.take(t).push(ch));
        if board.spec_occupied(i, y) {
            let next = spec_force_level(index, level, ch);
            let outcomes = level.map_values(|b: Branch| spec_forced(index, b, ch));
            let at = lemma_somes_member(outcomes, m);
            lemma_forced_right(board, index, rack, i, j, b);
            lemma_right_member(board, index, rack, i, j, c, row, next, y + 1, at)
        } else {
            let letter = spec_tile_of(ch);
            let replacement = spec_to_upper(ch);
            let next = spec_expand(board, index, level, i, y);
            let at = lemma_step_member(board, index, b, i, y, letter, replacement);
            let place = lemma_expand_member(board, index, level, i, y, m, at);
            lemma_place_right(board, index, rack, i, j, b, letter, replacement);
            let k = lemma_right_member(board, index, rack, i, j, c, row, next, y + 1, place);
            level.len() + k
        }
    }
}

/// The branch that covers the `t` letters of a findable word that end on
/// the anchor grows to the left by the letter before them, on a free cell.
pub proof fn lemma_next_left(
    board: Board,
    index: &Gaddag,
    rack: Rack,
    i: int,
    j: int,
    c: int,
    row: Seq<char>,
    b: Branch,
    t: int,
)
    requires
        index.wf(),
        spec_findable(board, index, rack, i, j, c, row),
        0 <= t <= j - c,
        !board.spec_occupied(i, j - t),
        spec_left_inv(board, index, rack, i, j, b),
        b.prefix.reverse() == row.subrange(j - c + 1 - t, j - c + 1),
    ensures
        ({
            let ch = row[j - c - t];
            &&& spec_process_letter(
                board,
                index,
                b,
                i,
                j - t,
                spec_tile_of(ch),
                spec_to_upper(ch),
            ) is Some
            &&& b.rack.spec_count(spec_tile_of(ch)) > 0
            &&& spec_placed_char(spec_tile_of(ch), spec_to_upper(ch)) == ch
            &&& spec_is_letter(spec_to_upper(ch))
            &&& spec_tile_of(ch) == spec_to_upper(ch) || spec_tile_of(ch) == WILDCARD
        }),
{
    let m = j - c;
    let word = spec_read(board, i, j, c, row);
    let path = spec_rotation(word, m);
    let ch = row[m - t];
    assert(b.prefix.len() == b.prefix.reverse().len());
    lemma_read_part(board, i, j, c, row, m + 1 - t, m + 1);
    lemma_path_left(word, m, t);
    lemma_walk_on(index, path, t);
    lemma_read_letter(board, i, j, c, row, m - t);
    assert(path[t] == spec_to_upper(ch));
    assert(spec_cell_ok(board, i, c + (m - t), row[m - t]));
    lemma_tile_shows(ch);
    lemma_tile_at_hand(board, rack, b, i, c, row, m + 1 - t, m + 1, m - t);
}

/// A branch that covers the letters of a findable word that end on the
/// anchor, as far as it has grown, leads to a branch that covers the word
/// from its first letter to the anchor, among those that the growth to the
/// left over free cells gives.
pub proof fn lemma_free_left_member(
    board: Board,
    index: &Gaddag,
    rack: Rack,
    i: int,
    j: int,
    c: int,
    row: Seq<char>,
    level: Seq<Branch>,
    col: int,
    limit: int,
    m: int,
) -> (k: int)
    requires
        index.wf(),
        spec_findable(board, index, rack, i, j, c, row),
        0 <= limit <= c,
        c - 1 <= col <= j,
        forall|x: int| limit - 1 <= x <= j ==> !#[trigger] board.spec_occupied(i, x),
        0 <= m < level.len(),
        spec_left_inv(board, index, rack, i, j, level[m]),
        level[m].prefix.reverse() == row.subrange(col + 1 - c, j - c + 1),
    ensures
        0 <= k < spec_free_left(board, index, level, i, col, limit).len(),
        spec_left_inv(
            board,
            index,
            rack,
            i,
            j,
            spec_free_left(board, index, level, i, col, limit)[k],
        ),
        spec_free_left(board, index, level, i, col, limit)[k].prefix.reverse() == row.subrange(
            0,
            j - c + 1,
        ),
    decreases col - c + 1,
{
    let b = level[m];
    if col == c - 1 {
        m
    } else {
        let t = j - col;
        assert(b.prefix.len() == b.prefix.reverse().len());
        lemma_next_left(board, index, rack, i, j, c, row, b, t);
        let ch = row[col - c];
        let letter = spec_tile_of(ch);
        let replacement = spec_to_upper(ch);
        let next = spec_expand(board, index, level, i, col);
        let at = lemma_step_member(board, index, b, i, col, letter, replacement);
        let place = lemma_expand_member(board, index, level, i, col, m, at);
        lemma_place_left(board, index, rack, i, j, b, letter, replacement);
        let r = next[place];
        assert(r.prefix.reverse() =~= seq![ch] + b.prefix.reverse());
        assert(r.prefix.reverse() =~= row.subrange(col - c, j - c + 1));
        let k = lemma_free_left_member(
            board,
            index,
            rack,
            i,
            j,
            c,
            row,
            next,
            col - 1,
            limit,
            place,
        );
        level.len() + k
    }
}

/// The limit of the growth to the left is no further right than a column
/// from which no cell up to the anchor is marked as an anchor.
pub proof fn lemma_limit_reaches(board: Board, i: int, j: int, c: int)
    requires
        0 <= c <= j,
        forall|x: int| c <= x < j ==> !#[trigger] board.anchors[i][x],
    ensures
        spec_left_limit(board, i, j) <= c,
    decreases j - c,
{
    if c < j {
        assert(!board.anchors[i][j - 1]);
        lemma_limit_reaches(board, i, j - 1, c);
    } else {
        lemma_left_limit_cells(board, i, j);
    }
}

/// The left part of a findable word is among the left parts at its anchor:
/// a branch that grows to the left and covers the word from its first letter
/// to the anchor.
pub proof fn lemma_left_parts_member(
    board: Board,
    index: &Gaddag,
    rack: Rack,
    i: int,
    j: int,
    c: int,
    row: Seq<char>,
) -> (k: int)
    requires
        index.wf(),
        spec_findable(board, index, rack, i, j, c, row),
    ensures
        0 <= k < spec_left_parts(board, index, rack, i, j).len(),
        spec_left_inv(board, index, rack, i, j, spec_left_parts(board, index, rack, i, j)[k]),
        spec_left_parts(board, index, rack, i, j)[k].prefix.reverse() == row.subrange(0, j - c + 1),
{
    let initial = spec_initial(rack, i, j);
    let m = j - c;
    lemma_initial(board, index, rack, i, j);
    assert(initial.prefix.reverse() =~= row.subrange(m + 1, m + 1));
    if j > 0 && board.spec_occupied(i, j - 1) {
        let left = board.spec_left_letters(i, j);
        let start = j - left.len();
        lemma_left_letters(board, i, j);
        lemma_run_start(board, i, j, c, row);
        lemma_next_left(board, index, rack, i, j, c, row, initial, 0);
        let ch = row[m];
        let letter = spec_tile_of(ch);
        let replacement = spec_to_upper(ch);
        let level = spec_step(board, index, initial, i, j);
        let at = lemma_step_member(board, index, initial, i, j, letter, replacement);
        let b = level[at];
        lemma_place_left(board, index, rack, i, j, initial, letter, replacement);
        assert(b.prefix =~= seq![ch]);
        assert(b.prefix.reverse() =~= seq![ch]);
        lemma_single(board, i, j, j, ch);
        lemma_read_letter(board, i, j, c, row, m);
        let first = seq![spec_read(board, i, j, c, row)[m]];
        assert(spec_read(board, i, j, j, b.prefix.reverse()).reverse() =~= first);
        lemma_attach_exists(board, index, i, j, c, row, b);
        let outcomes = level.map_values(|b: Branch| spec_attach_left(index, b, i, start, left));
        let k = lemma_somes_member(outcomes, at);
        lemma_attach_left(board, index, rack, i, j, b);
        let r = spec_attach_left(index, b, i, start, left)->0;
        assert(r.prefix.reverse() =~= left.reverse() + seq![ch]);
        assert(r.prefix.reverse() =~= row.subrange(0, m + 1)) by {
            lemma_run_is_word(board, i, j, c, row);
        }
        k
    } else {
        let limit = spec_left_limit(board, i, j);
        lemma_left_limit_cells(board, i, j);
        lemma_limit_reaches(board, i, j, c);
        assert forall|x: int| limit - 1 <= x <= j implies !#[trigger] board.spec_occupied(i, x) by {
            lemma_free_cells(board, i, j, x);
        }
        let level = seq![initial];
        lemma_free_left_member(board, index, rack, i, j, c, row, level, j, limit, 0)
    }
}

/// Where a letter stands left of the anchor of a findable word, the word
/// starts where the letters left of the anchor start.
pub proof fn lemma_run_start(board: Board, i: int, j: int, c: int, row: Seq<char>)
    requires
        Board::spec_in_range(i, j),
        0 <= c <= j < c + row.len(),
        !board.spec_occupied(i, c - 1),
        forall|x: int|
            0 <= x < GRID_SIZE ==> board.anchors[i][x] == #[trigger] board.spec_is_anchor(i, x),
        forall|x: int| c <= x < j ==> !#[trigger] board.anchors[i][x],
        j > 0 && board.spec_occupied(i, j - 1),
    ensures
        c == j - board.spec_left_letters(i, j).len(),
{
    let left = board.spec_left_letters(i, j);
    let start = j - left.len();
    lemma_left_letters(board, i, j);
    let run = left.reverse();
    if c > start {
        assert(spec_on_board(board, i, start + (c - 1 - start), run[c - 1 - start]));
    }
    if c < start {
        assert(spec_on_board(board, i, start + 0, run[0]));
        assert(board.spec_occupied(i, start));
        assert(!board.spec_occupied(i, start - 1));
        assert(board.spec_has_neighbor(i, start - 1));
        assert(board.spec_touches_letter(i, start - 1));
        assert(board.spec_is_anchor(i, start - 1));
        assert(board.anchors[i][start - 1]);
    }
}

/// Where a letter stands left of the anchor of a findable word, the letters
/// of the word before the anchor are the letters of the board left of the
/// anchor.
pub proof fn lemma_run_is_word(board: Board, i: int, j: int, c: int, row: Seq<char>)
    requires
        Board::spec_in_range(i, j),
        0 <= c <= j < c + row.len(),
        c == j - board.spec_left_letters(i, j).len(),
        forall|k: int| 0 <= k < row.len() ==> spec_cell_ok(board, i, c + k, #[trigger] row[k]),
    ensures
        board.spec_left_letters(i, j).reverse() == row.subrange(0, j - c),
        board.spec_left_letters(i, j).reverse() + seq![row[j - c]] == row.subrange(0, j - c + 1),
{
    let left = board.spec_left_letters(i, j);
    let run = left.reverse();
    lemma_left_letters(board, i, j);
    assert forall|k: int| 0 <= k < run.len() implies run[k] == row[k] by {
        assert(spec_on_board(board, i, c + k, run[k]));
        assert(spec_cell_ok(board, i, c + k, row[k]));
    }
    assert(run =~= row.subrange(0, j - c));
    assert(run + seq![row[j - c]] =~= row.subrange(0, j - c + 1));
}

/// The branch with the tile of a findable word on the anchor can grow over
/// the letters of the board left of the anchor.
pub proof fn lemma_attach_exists(
    board: Board,
    index: &Gaddag,
    i: int,
    j: int,
    c: int,
    row: Seq<char>,
    b: Branch,
)
    requires
        index.wf(),
        Board::spec_in_range(i, j),
        spec_legal(board, index, i, j, c, row),
        c == j - board.spec_left_letters(i, j).len(),
        b.node < index.node_count(),
        index.spec_follow_path(
            ROOT,
            seq![spec_read(board, i, j, c, row)[j - c]],
        ) == Some(b.node),
    ensures
        spec_attach_left(index, b, i, c, board.spec_left_letters(i, j)) is Some,
{
    let m = j - c;
    let left = board.spec_left_letters(i, j);
    let word = spec_read(board, i, j, c, row);
    let path = spec_rotation(word, m);
    lemma_run_is_word(board, i, j, c, row);
    lemma_left_letters(board, i, j);
    lemma_read_part(board, i, j, c, row, 0, m);
    crate::legal::lemma_board_run(board, i, j, c, left.reverse());
    assert(word.subrange(0, m) == left.reverse());
    lemma_path_left(word, m, m + 1);
    let walked = path.take(m + 1);
    assert(walked =~= seq![word[m]] + left) by {
        assert(word.subrange(0, m + 1).reverse() =~= seq![word[m]] + word.subrange(0, m).reverse());
        assert(left.reverse().reverse() =~= left);
    }
    index.lemma_follow_path_part(ROOT, path, m + 1);
    index.lemma_follow_path_concat(ROOT, seq![word[m]], left);
}

/// Nothing is missing at an anchor: a placement that the game allows
/// through the anchor, whose word covers no anchor further left and takes no
/// more tiles than the rack holds, is among the placements that the search
/// lists at the anchor, with its word, its reference, its score and the rack
/// it leaves. The result is its place among them.
pub proof fn lemma_anchor_plays_complete(
    board: Board,
    index: &Gaddag,
    rack: Rack,
    i: int,
    j: int,
    horizontal: bool,
    c: int,
    row: Seq<char>,
) -> (k: int)
    requires
        index.wf(),
        spec_findable(board, index, rack, i, j, c, row),
    ensures
        0 <= k < spec_anchor_plays(board, index, rack, i, j, horizontal).len(),
        spec_anchor_plays(board, index, rack, i, j, horizontal)[k].word == row,
        spec_is_placement(
            board,
            index,
            rack,
            i,
            j,
            horizontal,
            spec_anchor_plays(board, index, rack, i, j, horizontal)[k],
            c,
        ),
{
    let m = j - c;
    let word = spec_read(board, i, j, c, row);
    let path = spec_rotation(word, m);
    let left = spec_left_parts(board, index, rack, i, j);
    let kept = spec_filter_left(index, left);
    let grown = spec_right_parts(board, index, kept, i, j + 1);
    let at_left = lemma_left_parts_member(board, index, rack, i, j, c, row);
    let b = left[at_left];
    assert(b.prefix.len() == b.prefix.reverse().len());
    lemma_read_part(board, i, j, c, row, 0, m + 1);
    lemma_path_left(word, m, m + 1);
    lemma_walk_on(index, path, m + 1);
    let crossed = left.map_values(|b: Branch| spec_cross_separator(index, b));
    let at_kept = lemma_somes_member(crossed, at_left);
    lemma_cross_separator(board, index, rack, i, j, b);
    let turned = kept[at_kept];
    assert(row.subrange(0, m + 1) =~= row.take(j + 1 - c));
    let at_grown = lemma_right_member(board, index, rack, i, j, c, row, kept, j + 1, at_kept);
    let whole = grown[at_grown];
    let plays = grown.map_values(|b: Branch| spec_play_of(index, b, horizontal));
    assert(index.spec_contains_word(path));
    lemma_somes_member(plays, at_grown)
}

/// A placement found at an anchor of a row is among the placements listed
/// for the row: its place among them.
pub proof fn lemma_row_plays_member(
    board: Board,
    index: &Gaddag,
    rack: Rack,
    horizontal: bool,
    i: int,
    n: int,
    j: int,
    at: int,
) -> (k: int)
    requires
        0 <= j < n,
        board.anchors[i][j],
        0 <= at < spec_anchor_plays(board, index, rack, i, j, horizontal).len(),
    ensures
        0 <= k < spec_row_plays(board, index, rack, horizontal, i, n).len(),
        spec_row_plays(board, index, rack, horizontal, i, n)[k] == spec_anchor_plays(
            board,
            index,
            rack,
            i,
            j,
            horizontal,
        )[at],
    decreases n,
{
    let before = spec_row_plays(board, index, rack, horizontal, i, n - 1);
    if j == n - 1 {
        before.len() + at
    } else {
        lemma_row_plays_member(board, index, rack, horizontal, i, n - 1, j, at)
    }
}

/// A placement found at an anchor is among the placements listed for the
/// board: its place among them.
pub proof fn lemma_board_plays_member(
    board: Board,
    index: &Gaddag,
    rack: Rack,
    horizontal: bool,
    n: int,
    i: int,
    j: int,
    at: int,
) -> (k: int)
    requires
        0 <= i < n,
        0 <= j < GRID_SIZE,
        board.anchors[i][j],
        0 <= at < spec_anchor_plays(board, index, rack, i, j, horizontal).len(),
    ensures
        0 <= k < spec_board_plays(board, index, rack, horizontal, n).len(),
        spec_board_plays(board, index, rack, horizontal, n)[k] == spec_anchor_plays(
            board,
            index,
            rack,
            i,
            j,
            horizontal,
        )[at],
    decreases n,
{
    let before = spec_board_plays(board, index, rack, horizontal, n - 1);
    if i == n - 1 {
        let k = lemma_row_plays_member(
            board,
            index,
            rack,
            horizontal,
            i,
            GRID_SIZE as int,
            j,
            at,
        );
        before.len() + k
    } else {
        lemma_board_plays_member(board, index, rack, horizontal, n - 1, i, j, at)
    }
}

/// Nothing is missing from a generation: a placement that the game allows
/// and the rack can make is listed, with its word, its reference, its score
/// and the rack it leaves. For a word that reads to the right the placement
/// is taken on the board; for a word that reads downwards (`horizontal` is
/// false) on the transposed board with its anchors and cross tables made
/// anew. The anchor `(i, j)` is the leftmost one under the word. The result
/// is the place of the placement in the list.
pub proof fn lemma_solutions_complete(
    board: Board,
    index: &Gaddag,
    rack: Rack,
    horizontal: bool,
    i: int,
    j: int,
    c: int,
    row: Seq<char>,
) -> (k: int)
    requires
        index.wf(),
        spec_findable(
            if horizontal {
                board
            } else {
                board.spec_transposed().spec_derived(index)
            },
            index,
            rack,
            i,
            j,
            c,
            row,
        ),
    ensures
        0 <= k < spec_solutions(board, index, rack).len(),
        spec_solutions(board, index, rack)[k].word == row,
        spec_is_placement(
            if horizontal {
                board
            } else {
                board.spec_transposed().spec_derived(index)
            },
            index,
            rack,
            i,
            j,
            horizontal,
            spec_solutions(board, index, rack)[k],
            c,
        ),
{
    let across = spec_board_plays(board, index, rack, true, GRID_SIZE as int);
    if horizontal {
        let at = lemma_anchor_plays_complete(board, index, rack, i, j, true, c, row);
        lemma_board_plays_member(board, index, rack, true, GRID_SIZE as int, i, j, at)
    } else {
        let turned = board.spec_transposed().spec_derived(index);
        let at = lemma_anchor_plays_complete(turned, index, rack, i, j, false, c, row);
        let k = lemma_board_plays_member(turned, index, rack, false, GRID_SIZE as int, i, j, at);
        across.len() + k
    }
}

/// The letters of a word in upper case.
pub open spec fn spec_upper(row: Seq<char>) -> Seq<char>
    decreases row.len(),
{
    if row.len() == 0 {
        Seq::empty()
    } else {
        spec_upper(row.drop_last()).push(spec_to_upper(row.last()))
    }
}

/// Whether every letter that stands on row `i` of the board is an upper-case
/// letter of the alphabet: no blank was played there.
pub open spec fn spec_row_in_capitals(board: Board, i: int) -> bool {
    forall|col: int| #[trigger]
        board.spec_occupied(i, col) ==> spec_is_letter(board.squares[i][col]->Letter_0)
}

/// Whether the game allows the word `row` on row `i` of the board from
/// column `c` on, with the words of the list `words` and the tiles of `rack`:
/// the word lies on the board with a free cell or the edge on either side,
/// covers an anchor, agrees with the letters of the board, puts on each free
/// cell a tile that fits the cell's cross table, is a word of the list, and
/// takes no more tiles of any kind than the rack holds.
pub open spec fn spec_allowed(
    board: Board,
    words: Seq<Seq<char>>,
    rack: Rack,
    i: int,
    c: int,
    row: Seq<char>,
) -> bool {
    &&& 0 <= i < GRID_SIZE
    &&& 0 <= c
    &&& c + row.len() <= GRID_SIZE
    &&& !board.spec_occupied(i, c - 1)
    &&& !board.spec_occupied(i, c + row.len())
    &&& exists|j: int| c <= j < c + row.len() && #[trigger] board.spec_is_anchor(i, j)
    &&& forall|k: int| 0 <= k < row.len() ==> spec_cell_ok(board, i, c + k, #[trigger] row[k])
    &&& words.contains(spec_upper(row))
    &&& forall|t: char|
        spec_tile_index(t) is Some ==> #[trigger] spec_measure(board, i, c, row, Measure::Used(t))
            <= rack.spec_count(t)
}

/// On a row whose letters are capitals the search reads a word that may
/// stand there in upper case, whatever the anchor; and no letter of it is
/// the separator.
pub proof fn lemma_read_is_upper(board: Board, i: int, j: int, c: int, row: Seq<char>)
    requires
        spec_row_in_capitals(board, i),
        forall|k: int| 0 <= k < row.len() ==> spec_cell_ok(board, i, c + k, #[trigger] row[k]),
    ensures
        spec_read(board, i, j, c, row) == spec_upper(row),
        !spec_upper(row).contains(SEPARATOR),
        forall|k: int| 0 <= k < row.len() ==> #[trigger] row[k] != SEPARATOR,
        spec_upper(row).len() == row.len(),
    decreases row.len(),
{
    if row.len() > 0 {
        let rest = row.drop_last();
        let ch = row.last();
        let col = c + row.len() - 1;
        assert forall|k: int| 0 <= k < rest.len() implies spec_cell_ok(
            board,
            i,
            c + k,
            #[trigger] rest[k],
        ) by {
            assert(rest[k] == row[k]);
            assert(spec_cell_ok(board, i, c + k, row[k]));
        }
        lemma_read_is_upper(board, i, j, c, rest);
        assert(ch == row[row.len() - 1]);
        assert(spec_cell_ok(board, i, col, row[row.len() - 1]));
        if board.spec_occupied(i, col) {
            assert(spec_is_letter(board.squares[i][col]->Letter_0));
        }
        let upper = spec_upper(row);
        assert forall|k: int| 0 <= k < upper.len() implies upper[k] != SEPARATOR by {
            if k < rest.len() {
                assert(upper[k] == spec_upper(rest)[k]);
                assert(spec_upper(rest).contains(spec_upper(rest)[k]));
            }
        }
        assert forall|k: int| 0 <= k < row.len() implies #[trigger] row[k] != SEPARATOR by {
            if k < rest.len() {
                assert(row[k] == rest[k]);
            }
        }
    }
}

/// The leftmost anchor among the cells from column `c` up to an anchor in
/// column `j`.
pub proof fn lemma_leftmost_anchor(board: Board, i: int, c: int, j: int) -> (first: int)
    requires
        c <= j,
        board.spec_is_anchor(i, j),
    ensures
        c <= first <= j,
        board.spec_is_anchor(i, first),
        forall|x: int| c <= x < first ==> !#[trigger] board.spec_is_anchor(i, x),
    decreases j - c,
{
    if board.spec_is_anchor(i, c) {
        c
    } else {
        lemma_leftmost_anchor(board, i, c + 1, j)
    }
}

/// The list of a board is what the game allows: on a board whose anchors
/// are those of its squares, with the index of a list of words, a word on a
/// row on which no blank was played is listed with the reference of its
/// first cell exactly if the game allows it there. For the words that read
/// downwards the board is the transposed one, and `horizontal` is false.
pub proof fn lemma_listed_iff_allowed(
    board: Board,
    index: &Gaddag,
    words: Seq<Seq<char>>,
    rack: Rack,
    horizontal: bool,
    i: int,
    c: int,
    row: Seq<char>,
)
    requires
        index.wf(),
        index@ == spec_index_of(words),
        spec_anchors_derived(board),
        spec_row_in_capitals(board, i),
        0 <= i < GRID_SIZE,
        0 <= c < GRID_SIZE,
    ensures
        spec_allowed(board, words, rack, i, c, row) <==> exists|k: int|
            0 <= k < spec_board_plays(board, index, rack, horizontal, GRID_SIZE as int).len()
                && (#[trigger] spec_board_plays(
                board,
                index,
                rack,
                horizontal,
                GRID_SIZE as int,
            )[k]).word == row && spec_board_plays(
                board,
                index,
                rack,
                horizontal,
                GRID_SIZE as int,
            )[k].position == if horizontal {
                spec_reference(i, c, 0)
            } else {
                spec_reference(c, i, 1)
            },
{
    let plays = spec_board_plays(board, index, rack, horizontal, GRID_SIZE as int);
    let place = if horizontal {
        spec_reference(i, c, 0)
    } else {
        spec_reference(c, i, 1)
    };
    if spec_allowed(board, words, rack, i, c, row) {
        let some = choose|j: int| c <= j < c + row.len() && #[trigger] board.spec_is_anchor(i, j);
        let j = lemma_leftmost_anchor(board, i, c, some);
        lemma_anchor_is_empty(board, i, j);
        lemma_read_is_upper(board, i, j, c, row);
        lemma_index_round_trip(words, spec_upper(row), j - c);
        assert forall|x: int| 0 <= x < GRID_SIZE implies board.anchors[i][x]
            == #[trigger] board.spec_is_anchor(i, x) by {}
        assert forall|x: int| c <= x < j implies !#[trigger] board.anchors[i][x] by {
            assert(!board.spec_is_anchor(i, x));
        }
        assert(spec_findable(board, index, rack, i, j, c, row));
        let at = lemma_anchor_plays_complete(board, index, rack, i, j, horizontal, c, row);
        let k = lemma_board_plays_member(
            board,
            index,
            rack,
            horizontal,
            GRID_SIZE as int,
            i,
            j,
            at,
        );
        assert(plays[k].word == row && plays[k].position == place);
    }
    if exists|k: int| 0 <= k < plays.len() && (#[trigger] plays[k]).word == row && plays[k].position == place {
        let k = choose|k: int|
            0 <= k < plays.len() && (#[trigger] plays[k]).word == row && plays[k].position == place;
        crate::gaddag::lemma_no_leading_separator(index, words);
        let (row_found, j, start) = lemma_board_plays_sound(board, index, rack, horizontal, k);
        if horizontal {
            lemma_reference_unique(place, i, c, 0, row_found, start, 0);
        } else {
            lemma_reference_unique(place, c, i, 1, start, row_found, 1);
        }
        assert(board.spec_is_anchor(i, j));
        lemma_read_is_upper(board, i, j, c, row);
        lemma_legal_word_is_listed(board, index, words, i, j, c, row);
        assert forall|t: char| spec_tile_index(t) is Some implies #[trigger] spec_measure(
            board,
            i,
            c,
            row,
            Measure::Used(t),
        ) <= rack.spec_count(t) by {
            assert(plays[k].rack.spec_count(t) + spec_measure(board, i, c, row, Measure::Used(t))
                == rack.spec_count(t));
        }
    }
}

/// A generation lists what the game allows, and nothing else: with the
/// index of a list of words, on a board whose anchors are those of its
/// squares, a word is listed with the reference of a cell and a direction
/// exactly if the game allows it from that cell on in that direction. For a
/// word that reads to the right the board is looked at as it is; for a word
/// that reads downwards it is the transposed board, with its anchors and
/// cross tables made anew, on which the word lies on the row `col` from the
/// column `row` on. No blank may have been played on the row looked at.
pub proof fn lemma_generation_lists_what_is_allowed(
    board: Board,
    index: &Gaddag,
    words: Seq<Seq<char>>,
    rack: Rack,
    row: int,
    col: int,
    direction: int,
    word: Seq<char>,
)
    requires
        index.wf(),
        index@ == spec_index_of(words),
        spec_anchors_derived(board),
        0 <= row < GRID_SIZE,
        0 <= col < GRID_SIZE,
        0 <= direction <= 1,
        direction == 0 ==> spec_row_in_capitals(board, row),
        direction == 1 ==> spec_row_in_capitals(board.spec_transposed().spec_derived(index), col),
    ensures
        (exists|k: int|
            0 <= k < spec_solutions(board, index, rack).len() && (#[trigger] spec_solutions(
                board,
                index,
                rack,
            )[k]).word == word && spec_solutions(board, index, rack)[k].position
                == spec_reference(row, col, direction)) <==> if direction == 0 {
            spec_allowed(board, words, rack, row, col, word)
        } else {
            spec_allowed(
                board.spec_transposed().spec_derived(index),
                words,
                rack,
                col,
                row,
                word,
            )
        },
{
    let turned = board.spec_transposed().spec_derived(index);
    let across = spec_board_plays(board, index, rack, true, GRID_SIZE as int);
    let down = spec_board_plays(turned, index, rack, false, GRID_SIZE as int);
    let all = spec_solutions(board, index, rack);
    let place = spec_reference(row, col, direction);
    lemma_derived_anchors(board.spec_transposed(), index);
    crate::gaddag::lemma_no_leading_separator(index, words);
    if direction == 0 {
        lemma_listed_iff_allowed(board, index, words, rack, true, row, col, word);
    } else {
        lemma_listed_iff_allowed(turned, index, words, rack, false, col, row, word);
    }
    let wanted = if direction == 0 {
        spec_allowed(board, words, rack, row, col, word)
    } else {
        spec_allowed(turned, words, rack, col, row, word)
    };
    if wanted {
        if direction == 0 {
            let k = choose|k: int|
                0 <= k < across.len() && (#[trigger] across[k]).word == word && across[k].position
                    == place;
            assert(all[k] == across[k]);
        } else {
            let k = choose|k: int|
                0 <= k < down.len() && (#[trigger] down[k]).word == word && down[k].position
                    == place;
            assert(all[across.len() + k] == down[k]);
        }
    }
    if exists|k: int| 0 <= k < all.len() && (#[trigger] all[k]).word == word && all[k].position == place {
        let k = choose|k: int|
            0 <= k < all.len() && (#[trigger] all[k]).word == word && all[k].position == place;
        if k < across.len() {
            assert(all[k] == across[k]);
            let (i, j, c) = lemma_board_plays_sound(board, index, rack, true, k);
            lemma_reference_unique(place, row, col, direction, i, c, 0);
        } else {
            assert(all[k] == down[k - across.len()]);
            let (i, j, c) = lemma_board_plays_sound(turned, index, rack, false, k - across.len());
            lemma_reference_unique(place, row, col, direction, c, i, 1);
        }
    }
}

} // verus!

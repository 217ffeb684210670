//! The search for placements. From an anchor a word grows to the left, cell
//! by cell, along the reversed part of the index; it crosses the separator;
//! then it grows to the right. Each state of that growth is a branch; the
//! branches that stand on the end of a stored sequence are the plays.
//!
//! The search reads words from left to right only. Words that read downwards
//! are found on the transposed board.

use crate::constants::{
    alphabet_letter, bingo_bonus, letter_value, spec_alphabet_letter, spec_bingo_bonus,
    spec_letter_value, spec_to_lower, spec_to_upper, to_lower, to_upper, ALPHABET_SIZE, GRID_SIZE,
    SEPARATOR, WILDCARD,
};
use crate::gaddag::{Gaddag, ROOT};
use crate::grid::{
    spec_letter_multiplier, spec_letters_value, spec_reference, spec_word_multiplier, Board, Grid,
    Square,
};
use crate::rack::Rack;
use crate::text::{str_chars, string_from_chars, string_push};
use vstd::string::StringExecFns;
use vstd::prelude::*;

verus! {

/// A branch of the search: a part of a word that lies on one row of the
/// board.
#[derive(Debug)]
pub struct WordInfo {
    /// Row and column of the leftmost cell that the branch covers.
    pub position: (usize, usize),
    /// The tiles that are left.
    pub rack: Rack,
    /// The letters covered: while the branch grows to the left, from the
    /// anchor leftwards; afterwards in reading order. A blank shows as the
    /// lower-case letter it stands for.
    pub prefix: String,
    /// The value of the letters with their letter premiums, the product of
    /// the word premiums, and the sum of the scores of the words completed
    /// downwards.
    pub score: (u64, u64, u64),
    /// The number of tiles placed.
    pub letters_nb: u8,
    /// The node of the index that the branch has reached.
    pub node: usize,
}

/// A placement: where the word starts and in which direction it reads, the
/// word, the tiles that are left, and the score.
#[derive(Debug)]
pub struct ValidWord {
    /// The reference of the first cell: the row's letter and the column's
    /// number for a word that reads to the right, the number and then the
    /// letter for a word that reads downwards.
    pub position: String,
    /// The tiles that are left once the word is placed.
    pub rack: Rack,
    /// The word, the letters of the board under it included. A blank shows
    /// as the lower-case letter it stands for.
    pub word: String,
    /// What the placement scores.
    pub score: u64,
}

/// A branch as a mathematical value.
pub struct Branch {
    pub position: (int, int),
    pub rack: Rack,
    pub prefix: Seq<char>,
    pub score: (nat, nat, nat),
    pub letters_nb: nat,
    pub node: usize,
}

/// A placement as a mathematical value.
pub struct Play {
    pub position: Seq<char>,
    pub rack: Rack,
    pub word: Seq<char>,
    pub score: nat,
}

impl View for WordInfo {
    type V = Branch;

    open spec fn view(&self) -> Branch {
        Branch {
            position: (self.position.0 as int, self.position.1 as int),
            rack: self.rack,
            prefix: self.prefix@,
            score: (self.score.0 as nat, self.score.1 as nat, self.score.2 as nat),
            letters_nb: self.letters_nb as nat,
            node: self.node,
        }
    }
}

impl View for ValidWord {
    type V = Play;

    open spec fn view(&self) -> Play {
        Play {
            position: self.position@,
            rack: self.rack,
            word: self.word@,
            score: self.score as nat,
        }
    }
}

/// The branches that the elements of `level` stand for.
pub open spec fn spec_branches(level: Seq<WordInfo>) -> Seq<Branch> {
    level.map_values(|w: WordInfo| w@)
}

/// The placements that the elements of `words` stand for.
pub open spec fn spec_plays(words: Seq<ValidWord>) -> Seq<Play> {
    words.map_values(|w: ValidWord| w@)
}

/// The view of a branch that may be missing.
pub open spec fn spec_option_branch(r: Option<WordInfo>) -> Option<Branch> {
    match r {
        Some(w) => Some(w@),
        None => None,
    }
}

/// 4 to the power `n`: the most that `n` word premiums multiply a score by.
pub open spec fn spec_pow4(n: nat) -> nat
    decreases n,
{
    if n == 0 {
        1
    } else {
        4 * spec_pow4((n - 1) as nat)
    }
}

/// The elements of `s` that are there, in order.
pub open spec fn spec_somes<T>(s: Seq<Option<T>>) -> Seq<T>
    decreases s.len(),
{
    if s.len() == 0 {
        Seq::empty()
    } else {
        match s.last() {
            Some(x) => spec_somes(s.drop_last()).push(x),
            None => spec_somes(s.drop_last()),
        }
    }
}

impl Branch {
    /// Whether the branch is one that a search in `index` on a board can
    /// reach: its node is a node of the index, it starts on the board, it is
    /// no longer than a row, and its counts are no more than its letters can
    /// have earned.
    pub open spec fn spec_valid(self, index: &Gaddag) -> bool {
        let n = self.prefix.len();
        &&& self.node < index.node_count()
        &&& 0 <= self.position.0 < GRID_SIZE
        &&& 0 <= self.position.1 < GRID_SIZE
        &&& n <= GRID_SIZE
        &&& self.letters_nb <= n
        &&& self.score.0 <= 40 * n
        &&& self.score.1 <= spec_pow4(n)
        &&& self.score.2 <= u32::MAX * n
    }
}

/// Whether every branch of `level` is valid and has at most `n` letters.
pub open spec fn spec_level_valid(index: &Gaddag, level: Seq<Branch>, n: int) -> bool {
    forall|k: int|
        0 <= k < level.len() ==> (#[trigger] level[k]).spec_valid(index) && level[k].prefix.len()
            <= n
}

/// What placing a tile adds to the scores of the words read downwards, on a
/// cell with the cross table `table`: nothing where the cell has no table;
/// else the entry of the letter placed, or the entry of the blank where the
/// tile is a blank. `None` where the letter that the tile stands for is not
/// in the table: the tile cannot be placed.
pub open spec fn spec_cross_gain(
    table: Option<Map<char, nat>>,
    letter: char,
    replacement: char,
) -> Option<nat> {
    match table {
        None => Some(0),
        Some(t) => if t.dom().contains(replacement) {
            if letter == WILDCARD {
                if t.dom().contains(WILDCARD) {
                    Some(t[WILDCARD])
                } else {
                    Some(0)
                }
            } else {
                Some(t[replacement])
            }
        } else {
            None
        },
    }
}

/// How a placed tile shows in the word: a blank as the lower-case letter it
/// stands for, any other tile as itself.
pub open spec fn spec_placed_char(letter: char, replacement: char) -> char {
    if letter == WILDCARD {
        spec_to_lower(replacement)
    } else {
        letter
    }
}

/// The branch `b` with the tile `letter` placed on the empty cell `(i, j)`,
/// standing for `replacement`. There is none where the node of `b` has no
/// edge for `replacement`, or where the cell's cross table does not hold it.
pub open spec fn spec_process_letter(
    board: Board,
    index: &Gaddag,
    b: Branch,
    i: int,
    j: int,
    letter: char,
    replacement: char,
) -> Option<Branch> {
    match index.spec_child(b.node, replacement) {
        Some(next) => match spec_cross_gain(board.tables[i][j], letter, replacement) {
            Some(gain) => Some(
                Branch {
                    position: (
                        i,
                        if b.position.1 < j {
                            b.position.1
                        } else {
                            j
                        },
                    ),
                    rack: b.rack.spec_without(letter),
                    prefix: b.prefix.push(spec_placed_char(letter, replacement)),
                    score: (
                        b.score.0 + spec_letter_value(letter) * spec_letter_multiplier(
                            board.squares[i][j],
                        ),
                        b.score.1 * spec_word_multiplier(board.squares[i][j]),
                        b.score.2 + gain,
                    ),
                    letters_nb: b.letters_nb + 1,
                    node: next,
                },
            ),
            None => None,
        },
        None => None,
    }
}

/// The `k`-th thing to try on an empty cell: for `k` below 26 the `k`-th
/// letter of the alphabet as itself, if the rack holds it; from 26 on the
/// blank as the letter `k - 26`, if the rack holds a blank.
pub open spec fn spec_attempt(
    board: Board,
    index: &Gaddag,
    b: Branch,
    i: int,
    j: int,
    k: int,
) -> Option<Branch> {
    if k < ALPHABET_SIZE {
        let letter = spec_alphabet_letter(k);
        if b.rack.spec_count(letter) > 0 {
            spec_process_letter(board, index, b, i, j, letter, letter)
        } else {
            None
        }
    } else {
        if b.rack.spec_count(WILDCARD) > 0 {
            spec_process_letter(
                board,
                index,
                b,
                i,
                j,
                WILDCARD,
                spec_alphabet_letter(k - ALPHABET_SIZE),
            )
        } else {
            None
        }
    }
}

/// The branches that come from `b` by placing one tile of its rack on the
/// empty cell `(i, j)`: first the letters of the rack in the order of the
/// alphabet, then the blank as each letter of the alphabet in turn.
pub open spec fn spec_step(board: Board, index: &Gaddag, b: Branch, i: int, j: int) -> Seq<Branch> {
    spec_somes(Seq::new(2 * ALPHABET_SIZE as nat, |k: int| spec_attempt(board, index, b, i, j, k)))
}

/// The branches that come from the branches of `level` by placing one tile
/// on the empty cell `(i, j)`: those of the first branch, then those of the
/// second, and so on.
pub open spec fn spec_expand(
    board: Board,
    index: &Gaddag,
    level: Seq<Branch>,
    i: int,
    j: int,
) -> Seq<Branch>
    decreases level.len(),
{
    if level.len() == 0 {
        Seq::empty()
    } else {
        spec_expand(board, index, level.drop_last(), i, j) + spec_step(
            board,
            index,
            level.last(),
            i,
            j,
        )
    }
}

/// The branch `b` grown over the letter `letter` that stands on the board
/// right of it. There is none where the node of `b` has no edge for the
/// letter, taken in upper case.
pub open spec fn spec_forced(index: &Gaddag, b: Branch, letter: char) -> Option<Branch> {
    match index.spec_child(b.node, spec_to_upper(letter)) {
        Some(next) => Some(
            Branch {
                prefix: b.prefix.push(letter),
                score: (b.score.0 + spec_letter_value(letter), b.score.1, b.score.2),
                node: next,
                ..b
            },
        ),
        None => None,
    }
}

/// The branches of `level` grown over the letter `letter` of the board.
pub open spec fn spec_force_level(index: &Gaddag, level: Seq<Branch>, letter: char) -> Seq<Branch> {
    spec_somes(level.map_values(|b: Branch| spec_forced(index, b, letter)))
}

/// Every branch that comes from the branches of `level` by growing to the
/// right from column `y` of row `i` to the edge of the board. Over a letter
/// of the board every branch grows or ends; on an empty cell every branch is
/// kept as it is and grows by each tile that fits.
pub open spec fn spec_right_parts(
    board: Board,
    index: &Gaddag,
    level: Seq<Branch>,
    i: int,
    y: int,
) -> Seq<Branch>
    decreases GRID_SIZE - y,
{
    if y >= GRID_SIZE {
        level
    } else if board.squares[i][y] is Letter {
        spec_right_parts(
            board,
            index,
            spec_force_level(index, level, board.squares[i][y]->Letter_0),
            i,
            y + 1,
        )
    } else {
        level + spec_right_parts(board, index, spec_expand(board, index, level, i, y), i, y + 1)
    }
}

/// The branch that has covered nothing yet, at the anchor `(i, j)`.
pub open spec fn spec_initial(rack: Rack, i: int, j: int) -> Branch {
    Branch {
        position: (i, j),
        rack,
        prefix: Seq::empty(),
        score: (0, 1, 0),
        letters_nb: 0,
        node: ROOT,
    }
}

/// The column up to which a word through the anchor `(i, j)` may grow to the
/// left over empty cells: the column right of the nearest cell to the left
/// that is marked as an anchor, or the first column.
pub open spec fn spec_left_limit(board: Board, i: int, j: int) -> int
    decreases j,
{
    if j > 0 && !board.anchors[i][j - 1] {
        spec_left_limit(board, i, j - 1)
    } else {
        j
    }
}

/// Every branch that comes from the branches of `level` by growing to the
/// left over the empty cells from column `col` down to column `limit` of row
/// `i`: the branches themselves, then those one tile longer, and so on.
pub open spec fn spec_free_left(
    board: Board,
    index: &Gaddag,
    level: Seq<Branch>,
    i: int,
    col: int,
    limit: int,
) -> Seq<Branch>
    decreases col - limit + 1,
{
    if col < limit {
        level
    } else {
        level + spec_free_left(
            board,
            index,
            spec_expand(board, index, level, i, col),
            i,
            col - 1,
            limit,
        )
    }
}

/// The branch `b` grown to the left over the letters `left` of the board,
/// which are read leftwards and end in column `col` of row `i`. There is
/// none where the index has no way along these letters from the node of `b`.
pub open spec fn spec_attach_left(
    index: &Gaddag,
    b: Branch,
    i: int,
    col: int,
    left: Seq<char>,
) -> Option<Branch> {
    match index.spec_follow_path(b.node, left) {
        Some(next) => Some(
            Branch {
                position: (i, col),
                prefix: b.prefix + left,
                score: (b.score.0 + spec_letters_value(left), b.score.1, b.score.2),
                node: next,
                ..b
            },
        ),
        None => None,
    }
}

/// The branches of `level` grown over the letters of the board that stand
/// left of `(i, j)` without a gap.
pub open spec fn spec_handle_left(
    board: Board,
    index: &Gaddag,
    level: Seq<Branch>,
    i: int,
    j: int,
) -> Seq<Branch> {
    let left = board.spec_left_letters(i, j);
    spec_somes(level.map_values(|b: Branch| spec_attach_left(index, b, i, j - left.len(), left)))
}

/// The left parts at the anchor `(i, j)`. Where a letter stands left of the
/// anchor, they are the branches with one tile on the anchor, grown over the
/// letters to the left. Else they are the branches that grow from the anchor
/// leftwards over empty cells, up to the limit, every length among them.
pub open spec fn spec_left_parts(board: Board, index: &Gaddag, rack: Rack, i: int, j: int) -> Seq<
    Branch,
> {
    if j > 0 && board.spec_occupied(i, j - 1) {
        spec_handle_left(
            board,
            index,
            spec_step(board, index, spec_initial(rack, i, j), i, j),
            i,
            j,
        )
    } else {
        spec_free_left(
            board,
            index,
            seq![spec_initial(rack, i, j)],
            i,
            j,
            spec_left_limit(board, i, j),
        )
    }
}

/// The branch `b` once it has crossed the separator: its letters are put in
/// reading order. There is none where the node of `b` has no edge for the
/// separator: no word starts with these letters.
pub open spec fn spec_cross_separator(index: &Gaddag, b: Branch) -> Option<Branch> {
    match index.spec_child(b.node, SEPARATOR) {
        Some(next) => Some(Branch { prefix: b.prefix.reverse(), node: next, ..b }),
        None => None,
    }
}

/// The branches of `level` that can cross the separator, once they have.
pub open spec fn spec_filter_left(index: &Gaddag, level: Seq<Branch>) -> Seq<Branch> {
    spec_somes(level.map_values(|b: Branch| spec_cross_separator(index, b)))
}

/// The placement that the branch `b` makes, if a stored sequence ends at its
/// node. The score is the value of the letters times the product of the word
/// premiums, plus the scores of the words completed downwards, plus the
/// bonus for the number of tiles placed.
pub open spec fn spec_play_of(index: &Gaddag, b: Branch, horizontal: bool) -> Option<Play> {
    if index.spec_is_word(b.node) {
        Some(
            Play {
                position: if horizontal {
                    spec_reference(b.position.0, b.position.1, 0)
                } else {
                    spec_reference(b.position.1, b.position.0, 1)
                },
                rack: b.rack,
                word: b.prefix,
                score: b.score.0 * b.score.1 + b.score.2 + spec_bingo_bonus(b.letters_nb),
            },
        )
    } else {
        None
    }
}

/// The placements that the branches of `level` make.
pub open spec fn spec_valid_words(index: &Gaddag, level: Seq<Branch>, horizontal: bool) -> Seq<Play> {
    spec_somes(level.map_values(|b: Branch| spec_play_of(index, b, horizontal)))
}

/// The placements through the anchor `(i, j)` of words that read to the
/// right.
pub open spec fn spec_anchor_plays(
    board: Board,
    index: &Gaddag,
    rack: Rack,
    i: int,
    j: int,
    horizontal: bool,
) -> Seq<Play> {
    spec_valid_words(
        index,
        spec_right_parts(
            board,
            index,
            spec_filter_left(index, spec_left_parts(board, index, rack, i, j)),
            i,
            j + 1,
        ),
        horizontal,
    )
}

/// The placements through the anchors among the first `n` cells of row `i`.
pub open spec fn spec_row_plays(
    board: Board,
    index: &Gaddag,
    rack: Rack,
    horizontal: bool,
    i: int,
    n: int,
) -> Seq<Play>
    decreases n,
{
    if n <= 0 {
        Seq::empty()
    } else {
        spec_row_plays(board, index, rack, horizontal, i, n - 1) + if board.anchors[i][n - 1] {
            spec_anchor_plays(board, index, rack, i, n - 1, horizontal)
        } else {
            Seq::empty()
        }
    }
}

/// The placements through the anchors of the first `n` rows.
pub open spec fn spec_board_plays(
    board: Board,
    index: &Gaddag,
    rack: Rack,
    horizontal: bool,
    n: int,
) -> Seq<Play>
    decreases n,
{
    if n <= 0 {
        Seq::empty()
    } else {
        spec_board_plays(board, index, rack, horizontal, n - 1) + spec_row_plays(
            board,
            index,
            rack,
            horizontal,
            n - 1,
            GRID_SIZE as int,
        )
    }
}

/// Every placement that `rack` allows on `board`: first those of words that
/// read to the right, anchor by anchor and row by row; then those of words
/// that read downwards, found as words that read to the right on the
/// transposed board.
pub open spec fn spec_solutions(board: Board, index: &Gaddag, rack: Rack) -> Seq<Play> {
    spec_board_plays(board, index, rack, true, GRID_SIZE as int) + spec_board_plays(
        board.spec_transposed().spec_derived(index),
        index,
        rack,
        false,
        GRID_SIZE as int,
    )
}

/// Two levels whose branches are valid and have at most `n` letters make,
/// one after the other, a level of such branches.
pub proof fn lemma_levels_join(index: &Gaddag, first: Seq<Branch>, second: Seq<Branch>, n: int)
    requires
        spec_level_valid(index, first, n),
        exists|m: int| m <= n && #[trigger] spec_level_valid(index, second, m),
    ensures
        spec_level_valid(index, first + second, n),
{
    let joined = first + second;
    assert forall|k: int| 0 <= k < joined.len() implies (#[trigger] joined[k]).spec_valid(index)
        && joined[k].prefix.len() <= n by {
        if k < first.len() {
            assert(joined[k] == first[k]);
        } else {
            assert(joined[k] == second[k - first.len()]);
        }
    }
}

/// A row's worth of word premiums multiplies a score by 1073741824.
pub proof fn lemma_pow4_row()
    ensures
        spec_pow4(15) == 1073741824,
{
    assert(spec_pow4(0) == 1);
    assert(spec_pow4(1) == 4);
    assert(spec_pow4(2) == 16);
    assert(spec_pow4(3) == 64);
    assert(spec_pow4(4) == 256);
    assert(spec_pow4(5) == 1024);
    assert(spec_pow4(6) == 4096);
    assert(spec_pow4(7) == 16384);
    assert(spec_pow4(8) == 65536);
    assert(spec_pow4(9) == 262144);
    assert(spec_pow4(10) == 1048576);
    assert(spec_pow4(11) == 4194304);
    assert(spec_pow4(12) == 16777216);
    assert(spec_pow4(13) == 67108864);
    assert(spec_pow4(14) == 268435456);
}

/// 4 to the power `n` grows with `n`.
pub proof fn lemma_pow4_grows(n: nat, m: nat)
    requires
        n <= m,
    ensures
        1 <= spec_pow4(n) <= spec_pow4(m),
    decreases m,
{
    if n < m {
        lemma_pow4_grows(n, (m - 1) as nat);
    } else if n > 0 {
        lemma_pow4_grows((n - 1) as nat, (n - 1) as nat);
    }
}

/// 4 to the power `n` grows with `n`, and is 1073741824 at most where `n` is
/// no more than the length of a row.
pub proof fn lemma_pow4(n: nat, m: nat)
    requires
        n <= m,
    ensures
        1 <= spec_pow4(n) <= spec_pow4(m),
        m <= 15 ==> spec_pow4(m) <= 1073741824,
{
    lemma_pow4_grows(n, m);
    if m <= 15 {
        lemma_pow4_grows(m, 15);
        lemma_pow4_row();
    }
}

/// A copy of `rack` with one tile of kind `letter` less; a rack that holds
/// none is copied as it is.
pub fn reduce_rack(rack: &Rack, letter: char) -> (new_rack: Rack)
    ensures
        new_rack == rack.spec_without(letter),
        new_rack.spec_count(letter) == if rack.spec_count(letter) > 0 {
            rack.spec_count(letter) - 1
        } else {
            0
        },
        forall|c: char| c != letter ==> new_rack.spec_count(c) == rack.spec_count(c),
{
    rack.without(letter)
}

/// The branch `wordinfo` with the tile `letter` placed on the cell `(i, j)`,
/// standing for `replacement`: `letter` itself, or any letter where `letter`
/// is the blank. `None` where the index has no word that goes on with
/// `replacement`, or where `replacement` does not fit between the letters
/// above and below the cell.
pub fn process_letter(
    i: usize,
    j: usize,
    grid: &Grid,
    index: &Gaddag,
    wordinfo: &WordInfo,
    letter: char,
    replacement: char,
) -> (r: Option<WordInfo>)
    requires
        index.wf(),
        i < GRID_SIZE,
        j < GRID_SIZE,
        wordinfo@.spec_valid(index),
        wordinfo@.prefix.len() < GRID_SIZE,
    ensures
        spec_option_branch(r) == spec_process_letter(
            grid@,
            index,
            wordinfo@,
            i as int,
            j as int,
            letter,
            replacement,
        ),
        r matches Some(w) ==> w@.spec_valid(index),
{
    let next = match index.child(wordinfo.node, replacement) {
        Some(next) => next,
        None => {
            return None;
        },
    };
    let mut crossed: u64 = wordinfo.score.2;
    let ghost n = wordinfo@.prefix.len();
    proof {
        assert(crossed <= u32::MAX * n);
        assert(grid@.tables[i as int][j as int] == crate::grid::spec_table_view(
            grid.crosswords[i as int][j as int],
        ));
    }
    match grid.crosswords[i][j] {
        Some(table) => match table.get(replacement) {
            Some(entry) => {
                if letter == WILDCARD {
                    match table.get(WILDCARD) {
                        Some(blank) => {
                            crossed = crossed + blank as u64;
                        },
                        None => {},
                    }
                } else {
                    crossed = crossed + entry as u64;
                }
            },
            None => {
                return None;
            },
        },
        None => {},
    }
    let rack = reduce_rack(&wordinfo.rack, letter);
    let mut prefix = wordinfo.prefix.clone();
    let placed = if letter == WILDCARD {
        to_lower(replacement)
    } else {
        letter
    };
    string_push(&mut prefix, placed);
    let (premium, factor) = grid.get_square_multiplier(i, j);
    let value = letter_value(letter);
    proof {
        lemma_pow4(n, n + 1);
        lemma_pow4(n + 1, 15);
        assert(wordinfo.score.1 * factor <= spec_pow4(n + 1)) by (nonlinear_arith)
            requires
                wordinfo.score.1 <= spec_pow4(n),
                1 <= factor <= 4,
                spec_pow4(n + 1) == 4 * spec_pow4(n),
        ;
        assert(value * premium <= 40) by (nonlinear_arith)
            requires
                value <= 10,
                premium <= 4,
        ;
    }
    let flat = wordinfo.score.0 + value * premium;
    let multiplier = wordinfo.score.1 * factor;
    let column = if wordinfo.position.1 < j {
        wordinfo.position.1
    } else {
        j
    };
    Some(
        WordInfo {
            position: (i, column),
            rack,
            prefix,
            score: (flat, multiplier, crossed),
            letters_nb: wordinfo.letters_nb + 1,
            node: next,
        },
    )
}

/// The branches that come from `wordinfo` by placing one tile of its rack on
/// the empty cell `(i, j)`: each letter of the rack, in the order of the
/// alphabet, that the index and the cell's cross table admit; then, if the
/// rack holds a blank, the blank as each letter that they admit.
pub fn step(i: usize, j: usize, grid: &Grid, index: &Gaddag, wordinfo: &WordInfo) -> (results: Vec<
    WordInfo,
>)
    requires
        index.wf(),
        i < GRID_SIZE,
        j < GRID_SIZE,
        wordinfo@.spec_valid(index),
        wordinfo@.prefix.len() < GRID_SIZE,
    ensures
        spec_branches(results@) == spec_step(grid@, index, wordinfo@, i as int, j as int),
        spec_level_valid(index, spec_branches(results@), wordinfo@.prefix.len() as int + 1),
{
    let ghost attempts = Seq::new(
        2 * ALPHABET_SIZE as nat,
        |k: int| spec_attempt(grid@, index, wordinfo@, i as int, j as int, k),
    );
    let mut results: Vec<WordInfo> = Vec::new();
    let blank = wordinfo.rack.count(WILDCARD) > 0;
    let mut k: usize = 0;
    while k < 2 * ALPHABET_SIZE
        invariant
            k <= 2 * ALPHABET_SIZE,
            index.wf(),
            i < GRID_SIZE,
            j < GRID_SIZE,
            wordinfo@.spec_valid(index),
            wordinfo@.prefix.len() < GRID_SIZE,
            blank == (wordinfo@.rack.spec_count(WILDCARD) > 0),
            attempts == Seq::new(
                2 * ALPHABET_SIZE as nat,
                |k: int| spec_attempt(grid@, index, wordinfo@, i as int, j as int, k),
            ),
            spec_branches(results@) == spec_somes(attempts.take(k as int)),
            spec_level_valid(index, spec_branches(results@), wordinfo@.prefix.len() as int + 1),
        decreases 2 * ALPHABET_SIZE - k,
    {
        let attempt = if k < ALPHABET_SIZE {
            let letter = alphabet_letter(k);
            if wordinfo.rack.count(letter) > 0 {
                process_letter(i, j, grid, index, wordinfo, letter, letter)
            } else {
                None
            }
        } else if blank {
            process_letter(i, j, grid, index, wordinfo, WILDCARD, alphabet_letter(k - ALPHABET_SIZE))
        } else {
            None
        };
        proof {
            assert(attempts.take(k + 1).drop_last() =~= attempts.take(k as int));
            assert(attempts.take(k + 1).last() == attempts[k as int]);
            assert(spec_option_branch(attempt) == attempts[k as int]);
        }
        match attempt {
            Some(w) => {
                proof {
                    assert(spec_branches(results@.push(w)) =~= spec_branches(results@).push(w@));
                }
                results.push(w);
            },
            None => {},
        }
        k = k + 1;
    }
    proof {
        assert(attempts.take(k as int) =~= attempts);
    }
    results
}

/// The branches that come from the branches of `level` by placing one tile
/// on the empty cell `(i, j)`.
pub fn expand_level(i: usize, j: usize, grid: &Grid, index: &Gaddag, level: &Vec<WordInfo>) -> (next:
    Vec<WordInfo>)
    requires
        index.wf(),
        i < GRID_SIZE,
        j < GRID_SIZE,
        spec_level_valid(index, spec_branches(level@), GRID_SIZE - 1),
    ensures
        spec_branches(next@) == spec_expand(
            grid@,
            index,
            spec_branches(level@),
            i as int,
            j as int,
        ),
        forall|n: int|
            spec_level_valid(index, spec_branches(level@), n) ==> #[trigger] spec_level_valid(
                index,
                spec_branches(next@),
                n + 1,
            ),
{
    let ghost branches = spec_branches(level@);
    let mut next: Vec<WordInfo> = Vec::new();
    let mut k: usize = 0;
    while k < level.len()
        invariant
            k <= level.len(),
            index.wf(),
            i < GRID_SIZE,
            j < GRID_SIZE,
            branches == spec_branches(level@),
            spec_level_valid(index, branches, GRID_SIZE - 1),
            spec_branches(next@) == spec_expand(grid@, index, branches.take(k as int), i as int, j as int),
            forall|n: int|
                spec_level_valid(index, branches, n) ==> #[trigger] spec_level_valid(
                    index,
                    spec_branches(next@),
                    n + 1,
                ),
        decreases level.len() - k,
    {
        proof {
            assert(branches[k as int] == level@[k as int]@);
            assert(branches[k as int].spec_valid(index));
        }
        let mut grown = step(i, j, grid, index, &level[k]);
        proof {
            assert(branches.take(k + 1).drop_last() =~= branches.take(k as int));
            assert(branches.take(k + 1).last() == branches[k as int]);
            assert(spec_branches(next@ + grown@) =~= spec_branches(next@) + spec_branches(grown@));
            let joined = spec_branches(next@ + grown@);
            assert forall|n: int| spec_level_valid(index, branches, n) implies #[trigger] spec_level_valid(
                index,
                joined,
                n + 1,
            ) by {
                assert(spec_level_valid(index, spec_branches(next@), n + 1));
                assert(branches[k as int].prefix.len() <= n);
                assert forall|m: int| 0 <= m < joined.len() implies (#[trigger] joined[m]).spec_valid(
                    index,
                ) && joined[m].prefix.len() <= n + 1 by {
                    if m < next@.len() {
                        assert(joined[m] == spec_branches(next@)[m]);
                    } else {
                        assert(joined[m] == spec_branches(grown@)[m - next@.len()]);
                    }
                }
            }
        }
        next.append(&mut grown);
        k = k + 1;
    }
    proof {
        assert(branches.take(k as int) =~= branches);
    }
    next
}

/// The branch `wordinfo` grown over the letter `letter` of the board.
pub fn forced(index: &Gaddag, wordinfo: &WordInfo, letter: char) -> (r: Option<WordInfo>)
    requires
        index.wf(),
        wordinfo@.spec_valid(index),
        wordinfo@.prefix.len() < GRID_SIZE,
    ensures
        spec_option_branch(r) == spec_forced(index, wordinfo@, letter),
        r matches Some(w) ==> w@.spec_valid(index),
{
    match index.child(wordinfo.node, to_upper(letter)) {
        Some(next) => {
            let mut prefix = wordinfo.prefix.clone();
            string_push(&mut prefix, letter);
            proof {
                let n = wordinfo@.prefix.len();
                lemma_pow4(n, n + 1);
            }
            Some(
                WordInfo {
                    position: wordinfo.position,
                    rack: wordinfo.rack,
                    prefix,
                    score: (
                        wordinfo.score.0 + letter_value(letter),
                        wordinfo.score.1,
                        wordinfo.score.2,
                    ),
                    letters_nb: wordinfo.letters_nb,
                    node: next,
                },
            )
        },
        None => None,
    }
}

/// The branches of `level` grown over the letter `letter` of the board.
pub fn force_level(index: &Gaddag, level: &Vec<WordInfo>, letter: char) -> (next: Vec<WordInfo>)
    requires
        index.wf(),
        spec_level_valid(index, spec_branches(level@), GRID_SIZE - 1),
    ensures
        spec_branches(next@) == spec_force_level(index, spec_branches(level@), letter),
        forall|n: int|
            spec_level_valid(index, spec_branches(level@), n) ==> #[trigger] spec_level_valid(
                index,
                spec_branches(next@),
                n + 1,
            ),
{
    let ghost branches = spec_branches(level@);
    let ghost outcomes = branches.map_values(|b: Branch| spec_forced(index, b, letter));
    let mut next: Vec<WordInfo> = Vec::new();
    let mut k: usize = 0;
    while k < level.len()
        invariant
            k <= level.len(),
            index.wf(),
            branches == spec_branches(level@),
            outcomes == branches.map_values(|b: Branch| spec_forced(index, b, letter)),
            spec_level_valid(index, branches, GRID_SIZE - 1),
            spec_branches(next@) == spec_somes(outcomes.take(k as int)),
            forall|n: int|
                spec_level_valid(index, branches, n) ==> #[trigger] spec_level_valid(
                    index,
                    spec_branches(next@),
                    n + 1,
                ),
        decreases level.len() - k,
    {
        proof {
            assert(branches[k as int] == level@[k as int]@);
            assert(branches[k as int].spec_valid(index));
            assert(outcomes.take(k + 1).drop_last() =~= outcomes.take(k as int));
            assert(outcomes.take(k + 1).last() == spec_forced(index, branches[k as int], letter));
        }
        match forced(index, &level[k], letter) {
            Some(w) => {
                proof {
                    let longer = spec_branches(next@.push(w));
                    assert(longer =~= spec_branches(next@).push(w@));
                    assert forall|n: int| spec_level_valid(index, branches, n) implies #[trigger] spec_level_valid(
                        index,
                        longer,
                        n + 1,
                    ) by {
                        assert(spec_level_valid(index, spec_branches(next@), n + 1));
                        assert(branches[k as int].prefix.len() <= n);
                    }
                }
                next.push(w);
            },
            None => {},
        }
        k = k + 1;
    }
    proof {
        assert(outcomes.take(k as int) =~= outcomes);
    }
    next
}

/// Every branch that comes from the branches `wordinfos`, which end on the
/// anchor `(i, j)` or left of it, by growing to the right up to the edge of
/// the board. A branch is listed each time the next cell is empty or off the
/// board: there a word may end.
pub fn generate_right_parts(
    i: usize,
    j: usize,
    grid: &Grid,
    index: &Gaddag,
    wordinfos: Vec<WordInfo>,
) -> (all_results: Vec<WordInfo>)
    requires
        index.wf(),
        i < GRID_SIZE,
        j < GRID_SIZE,
        spec_level_valid(index, spec_branches(wordinfos@), j + 1),
    ensures
        spec_branches(all_results@) == spec_right_parts(
            grid@,
            index,
            spec_branches(wordinfos@),
            i as int,
            j + 1,
        ),
        spec_level_valid(index, spec_branches(all_results@), GRID_SIZE as int),
{
    let ghost board = grid@;
    let ghost target = spec_right_parts(board, index, spec_branches(wordinfos@), i as int, j + 1);
    let mut current = wordinfos;
    let mut all_results: Vec<WordInfo> = Vec::new();
    let mut y: usize = j + 1;
    while y < GRID_SIZE
        invariant
            j < y <= GRID_SIZE,
            i < GRID_SIZE,
            index.wf(),
            board == grid@,
            spec_level_valid(index, spec_branches(current@), y as int),
            spec_level_valid(index, spec_branches(all_results@), GRID_SIZE as int),
            spec_branches(all_results@) + spec_right_parts(
                board,
                index,
                spec_branches(current@),
                i as int,
                y as int,
            ) == target,
        decreases GRID_SIZE - y,
    {
        let ghost level = spec_branches(current@);
        proof {
            assert(board.squares[i as int][y as int] == grid.squares[i as int][y as int]);
        }
        match grid.squares[i][y] {
            Square::Letter(letter) => {
                current = force_level(index, &current, letter);
            },
            _ => {
                let next = expand_level(i, y, grid, index, &current);
                proof {
                    let grown = spec_expand(board, index, level, i as int, y as int);
                    let rest = spec_right_parts(board, index, grown, i as int, y + 1);
                    let kept = spec_branches(all_results@);
                    assert(spec_branches(all_results@ + current@) =~= kept + level);
                    assert((kept + level) + rest =~= kept + (level + rest));
                    lemma_levels_join(index, kept, level, GRID_SIZE as int);
                }
                all_results.append(&mut current);
                current = next;
            },
        }
        y = y + 1;
    }
    proof {
        let kept = spec_branches(all_results@);
        let level = spec_branches(current@);
        assert(spec_branches(all_results@ + current@) =~= kept + level);
        lemma_levels_join(index, kept, level, GRID_SIZE as int);
    }
    all_results.append(&mut current);
    all_results
}

/// No more letters stand left of a cell than there are cells left of it.
pub proof fn lemma_left_letters_len(board: Board, i: int, j: int)
    requires
        0 <= j,
    ensures
        board.spec_left_letters(i, j).len() <= j,
    decreases j,
{
    if j > 0 && board.spec_occupied(i, j - 1) {
        lemma_left_letters_len(board, i, j - 1);
    }
}

/// The letters of the board that stand left of `(i, j)` without a gap, read
/// leftwards, and what they are worth.
pub fn left_letters(grid: &Grid, i: usize, j: usize) -> (r: (Vec<char>, u64))
    requires
        i < GRID_SIZE,
        j < GRID_SIZE,
    ensures
        r.0@ == grid@.spec_left_letters(i as int, j as int),
        r.1 == spec_letters_value(r.0@),
        r.1 <= 10 * r.0@.len(),
        r.0@.len() <= j,
{
    let ghost board = grid@;
    let mut left: Vec<char> = Vec::new();
    let mut score: u64 = 0;
    let mut k: usize = j;
    let mut open = true;
    while open && k > 0
        invariant
            k <= j < GRID_SIZE,
            i < GRID_SIZE,
            board == grid@,
            board.spec_left_letters(i as int, j as int) == left@ + if open {
                board.spec_left_letters(i as int, k as int)
            } else {
                Seq::<char>::empty()
            },
            score == spec_letters_value(left@),
            left@.len() <= j - k,
            score <= 10 * left@.len(),
        decreases
                k + if open {
                    1nat
                } else {
                    0nat
                },
    {
        match grid.squares[i][k - 1] {
            Square::Letter(c) => {
                proof {
                    assert(left@.push(c).drop_last() =~= left@);
                    assert(left@.push(c) + board.spec_left_letters(i as int, k - 1) =~= left@ + (
                    seq![c] + board.spec_left_letters(i as int, k - 1)));
                }
                left.push(c);
                score = score + letter_value(c);
                k = k - 1;
            },
            _ => {
                open = false;
            },
        }
    }
    proof {
        assert(left@ + Seq::<char>::empty() =~= left@);
    }
    (left, score)
}

/// The branches `wordinfos`, which hold one tile on the anchor `(i, j)`,
/// grown over the letters of the board that stand left of the anchor. A
/// branch that the index cannot follow along these letters is dropped.
pub fn handle_left_part(
    i: usize,
    j: usize,
    grid: &Grid,
    index: &Gaddag,
    wordinfos: Vec<WordInfo>,
) -> (results: Vec<WordInfo>)
    requires
        index.wf(),
        i < GRID_SIZE,
        j < GRID_SIZE,
        spec_level_valid(
            index,
            spec_branches(wordinfos@),
            GRID_SIZE - grid@.spec_left_letters(i as int, j as int).len(),
        ),
    ensures
        spec_branches(results@) == spec_handle_left(
            grid@,
            index,
            spec_branches(wordinfos@),
            i as int,
            j as int,
        ),
        forall|n: int|
            spec_level_valid(index, spec_branches(wordinfos@), n) ==> #[trigger] spec_level_valid(
                index,
                spec_branches(results@),
                n + grid@.spec_left_letters(i as int, j as int).len(),
            ),
{
    let (left, left_score) = left_letters(grid, i, j);
    let left_text = string_from_chars(left.as_slice());
    let start: usize = j - left.len();
    let ghost branches = spec_branches(wordinfos@);
    let ghost outcomes = branches.map_values(
        |b: Branch| spec_attach_left(index, b, i as int, start as int, left@),
    );
    let mut results: Vec<WordInfo> = Vec::new();
    let mut k: usize = 0;
    while k < wordinfos.len()
        invariant
            k <= wordinfos.len(),
            index.wf(),
            i < GRID_SIZE,
            start + left@.len() == j < GRID_SIZE,
            left_text@ == left@,
            left_score == spec_letters_value(left@),
            left_score <= 10 * left@.len(),
            branches == spec_branches(wordinfos@),
            outcomes == branches.map_values(
                |b: Branch| spec_attach_left(index, b, i as int, start as int, left@),
            ),
            spec_level_valid(index, branches, GRID_SIZE - left@.len()),
            spec_branches(results@) == spec_somes(outcomes.take(k as int)),
            forall|n: int|
                spec_level_valid(index, branches, n) ==> #[trigger] spec_level_valid(
                    index,
                    spec_branches(results@),
                    n + left@.len(),
                ),
        decreases wordinfos.len() - k,
    {
        let wordinfo = &wordinfos[k];
        proof {
            assert(branches[k as int] == wordinfo@);
            assert(branches[k as int].spec_valid(index));
            assert(outcomes.take(k + 1).drop_last() =~= outcomes.take(k as int));
            assert(outcomes.take(k + 1).last() == spec_attach_left(
                index,
                branches[k as int],
                i as int,
                start as int,
                left@,
            ));
        }
        match index.follow_chars(wordinfo.node, left.as_slice()) {
            Some(next) => {
                let mut prefix = wordinfo.prefix.clone();
                prefix.append(left_text.as_str());
                proof {
                    let n = wordinfo@.prefix.len();
                    lemma_pow4_grows(n, n + left@.len());
                }
                let grown = WordInfo {
                    position: (i, start),
                    rack: wordinfo.rack,
                    prefix,
                    score: (wordinfo.score.0 + left_score, wordinfo.score.1, wordinfo.score.2),
                    letters_nb: wordinfo.letters_nb,
                    node: next,
                };
                proof {
                    assert(grown@.spec_valid(index));
                    let longer = spec_branches(results@.push(grown));
                    assert(longer =~= spec_branches(results@).push(grown@));
                    assert forall|n: int| spec_level_valid(index, branches, n) implies #[trigger] spec_level_valid(
                        index,
                        longer,
                        n + left@.len(),
                    ) by {
                        assert(spec_level_valid(index, spec_branches(results@), n + left@.len()));
                        assert(branches[k as int].prefix.len() <= n);
                    }
                }
                results.push(grown);
            },
            None => {},
        }
        k = k + 1;
    }
    proof {
        assert(outcomes.take(k as int) =~= outcomes);
    }
    results
}

/// The left parts at the anchor `(i, j)`: every way to cover the anchor and
/// cells left of it with tiles of `rack` along the index. Where a letter
/// stands left of the anchor, one tile goes on the anchor and the letters to
/// the left are taken as they stand. Else the word may grow leftwards over
/// empty cells up to, and not onto, the nearest cell marked as an anchor; every
/// length is kept, the empty one too.
pub fn generate_left_parts(i: usize, j: usize, grid: &Grid, rack: &Rack, index: &Gaddag) -> (results:
    Vec<WordInfo>)
    requires
        index.wf(),
        i < GRID_SIZE,
        j < GRID_SIZE,
    ensures
        spec_branches(results@) == spec_left_parts(grid@, index, *rack, i as int, j as int),
        spec_level_valid(index, spec_branches(results@), j + 1),
{
    let ghost board = grid@;
    let initial = WordInfo {
        position: (i, j),
        rack: *rack,
        prefix: String::new(),
        score: (0, 1, 0),
        letters_nb: 0,
        node: ROOT,
    };
    proof {
        index.lemma_root();
        assert(initial@.prefix =~= Seq::<char>::empty());
        assert(initial@ == spec_initial(*rack, i as int, j as int));
        assert(initial@.spec_valid(index));
        if j > 0 {
            assert(board.squares[i as int][j - 1] == grid.squares[i as int][j - 1]);
        }
    }
    if j > 0 {
        if let Square::Letter(_) = grid.squares[i][j - 1] {
            let current = step(i, j, grid, index, &initial);
            proof {
                lemma_left_letters_len(board, i as int, j as int);
            }
            let results = handle_left_part(i, j, grid, index, current);
            proof {
                let left = board.spec_left_letters(i as int, j as int);
                assert(spec_level_valid(index, spec_branches(results@), 1 + left.len() as int));
            }
            return results;
        }
    }
    let mut left_limit: usize = j;
    while left_limit > 0 && !grid.anchors[i][left_limit - 1]
        invariant
            left_limit <= j < GRID_SIZE,
            i < GRID_SIZE,
            board == grid@,
            spec_left_limit(board, i as int, left_limit as int) == spec_left_limit(
                board,
                i as int,
                j as int,
            ),
        decreases left_limit,
    {
        proof {
            assert(board.anchors[i as int][left_limit - 1] == grid.anchors[i as int][left_limit - 1]);
        }
        left_limit = left_limit - 1;
    }
    proof {
        if left_limit > 0 {
            assert(board.anchors[i as int][left_limit - 1] == grid.anchors[i as int][left_limit - 1]);
        }
        assert(spec_left_limit(board, i as int, j as int) == left_limit);
    }
    let ghost target = spec_free_left(
        board,
        index,
        seq![initial@],
        i as int,
        j as int,
        left_limit as int,
    );
    let mut all_results: Vec<WordInfo> = Vec::new();
    let mut current: Vec<WordInfo> = Vec::new();
    current.push(initial);
    proof {
        assert(spec_branches(current@) =~= seq![spec_initial(*rack, i as int, j as int)]);
        assert(spec_branches(all_results@) + target =~= target);
    }
    let mut col: usize = j + 1;
    while col > left_limit
        invariant
            left_limit <= col <= j + 1,
            j < GRID_SIZE,
            i < GRID_SIZE,
            index.wf(),
            board == grid@,
            spec_level_valid(index, spec_branches(current@), j + 1 - col),
            spec_level_valid(index, spec_branches(all_results@), j + 1),
            spec_branches(all_results@) + spec_free_left(
                board,
                index,
                spec_branches(current@),
                i as int,
                col - 1,
                left_limit as int,
            ) == target,
        decreases col,
    {
        let ghost level = spec_branches(current@);
        let next = expand_level(i, col - 1, grid, index, &current);
        proof {
            let grown = spec_expand(board, index, level, i as int, col - 1);
            let rest = spec_free_left(board, index, grown, i as int, col - 2, left_limit as int);
            let kept = spec_branches(all_results@);
            assert(spec_branches(all_results@ + current@) =~= kept + level);
            assert((kept + level) + rest =~= kept + (level + rest));
            lemma_levels_join(index, kept, level, j + 1);
            assert(spec_level_valid(index, level, j + 1 - col));
            assert(spec_level_valid(index, spec_branches(next@), (j + 1 - col) + 1));
        }
        all_results.append(&mut current);
        current = next;
        col = col - 1;
    }
    proof {
        let kept = spec_branches(all_results@);
        let level = spec_branches(current@);
        assert(spec_branches(all_results@ + current@) =~= kept + level);
        lemma_levels_join(index, kept, level, j + 1);
    }
    all_results.append(&mut current);
    all_results
}

/// The characters of `text` in the opposite order.
pub fn reversed(text: &str) -> (r: String)
    ensures
        r@ == text@.reverse(),
{
    let chars = str_chars(text);
    let n = chars.len();
    let mut r = String::new();
    let mut k: usize = n;
    while k > 0
        invariant
            k <= n,
            n == chars@.len(),
            r@ == chars@.subrange(k as int, n as int).reverse(),
        decreases k,
    {
        k = k - 1;
        string_push(&mut r, chars[k]);
        proof {
            assert(r@ =~= chars@.subrange(k as int, n as int).reverse());
        }
    }
    proof {
        assert(chars@.subrange(0, n as int) =~= chars@);
    }
    r
}

/// Keeps the left parts that can start a word: those whose node has an edge
/// for the separator. They go on from the node behind the separator, with
/// their letters put in reading order.
pub fn filter_left_parts(wordinfos: Vec<WordInfo>, index: &Gaddag) -> (results: Vec<WordInfo>)
    requires
        index.wf(),
        spec_level_valid(index, spec_branches(wordinfos@), GRID_SIZE as int),
    ensures
        spec_branches(results@) == spec_filter_left(index, spec_branches(wordinfos@)),
        forall|n: int|
            spec_level_valid(index, spec_branches(wordinfos@), n) ==> #[trigger] spec_level_valid(
                index,
                spec_branches(results@),
                n,
            ),
{
    let ghost branches = spec_branches(wordinfos@);
    let ghost outcomes = branches.map_values(|b: Branch| spec_cross_separator(index, b));
    let mut results: Vec<WordInfo> = Vec::new();
    let mut k: usize = 0;
    while k < wordinfos.len()
        invariant
            k <= wordinfos.len(),
            index.wf(),
            branches == spec_branches(wordinfos@),
            outcomes == branches.map_values(|b: Branch| spec_cross_separator(index, b)),
            spec_level_valid(index, branches, GRID_SIZE as int),
            spec_branches(results@) == spec_somes(outcomes.take(k as int)),
            forall|n: int|
                spec_level_valid(index, branches, n) ==> #[trigger] spec_level_valid(
                    index,
                    spec_branches(results@),
                    n,
                ),
        decreases wordinfos.len() - k,
    {
        let wordinfo = &wordinfos[k];
        proof {
            assert(branches[k as int] == wordinfo@);
            assert(branches[k as int].spec_valid(index));
            assert(outcomes.take(k + 1).drop_last() =~= outcomes.take(k as int));
            assert(outcomes.take(k + 1).last() == spec_cross_separator(index, branches[k as int]));
        }
        match index.child(wordinfo.node, SEPARATOR) {
            Some(next) => {
                let turned = WordInfo {
                    position: wordinfo.position,
                    rack: wordinfo.rack,
                    prefix: reversed(wordinfo.prefix.as_str()),
                    score: wordinfo.score,
                    letters_nb: wordinfo.letters_nb,
                    node: next,
                };
                proof {
                    assert(turned@.spec_valid(index));
                    let longer = spec_branches(results@.push(turned));
                    assert(longer =~= spec_branches(results@).push(turned@));
                    assert forall|n: int| spec_level_valid(index, branches, n) implies #[trigger] spec_level_valid(
                        index,
                        longer,
                        n,
                    ) by {
                        assert(spec_level_valid(index, spec_branches(results@), n));
                        assert(branches[k as int].prefix.len() <= n);
                    }
                }
                results.push(turned);
            },
            None => {},
        }
        k = k + 1;
    }
    proof {
        assert(outcomes.take(k as int) =~= outcomes);
    }
    results
}

/// Keeps the branches that stand on the end of a stored sequence, and makes
/// a placement of each: its reference, its word, the rack that is left and
/// its score. `direction` says whether the branches read to the right on the
/// board itself; if not, they were found on the transposed board and read
/// downwards.
pub fn filter_valid_words(wordinfos: Vec<WordInfo>, direction: bool, index: &Gaddag) -> (words: Vec<
    ValidWord,
>)
    requires
        index.wf(),
        spec_level_valid(index, spec_branches(wordinfos@), GRID_SIZE as int),
    ensures
        spec_plays(words@) == spec_valid_words(index, spec_branches(wordinfos@), direction),
{
    let ghost branches = spec_branches(wordinfos@);
    let ghost outcomes = branches.map_values(|b: Branch| spec_play_of(index, b, direction));
    let mut words: Vec<ValidWord> = Vec::new();
    let mut k: usize = 0;
    while k < wordinfos.len()
        invariant
            k <= wordinfos.len(),
            index.wf(),
            branches == spec_branches(wordinfos@),
            outcomes == branches.map_values(|b: Branch| spec_play_of(index, b, direction)),
            spec_level_valid(index, branches, GRID_SIZE as int),
            spec_plays(words@) == spec_somes(outcomes.take(k as int)),
        decreases wordinfos.len() - k,
    {
        let wordinfo = &wordinfos[k];
        proof {
            assert(branches[k as int] == wordinfo@);
            assert(branches[k as int].spec_valid(index));
            assert(outcomes.take(k + 1).drop_last() =~= outcomes.take(k as int));
            assert(outcomes.take(k + 1).last() == spec_play_of(index, branches[k as int], direction));
        }
        if index.is_word(wordinfo.node) {
            let bonus = bingo_bonus(wordinfo.letters_nb);
            proof {
                let n = wordinfo@.prefix.len();
                lemma_pow4(n, n);
                assert(wordinfo.score.0 * wordinfo.score.1 <= 600 * 1073741824) by (nonlinear_arith)
                    requires
                        wordinfo.score.0 <= 600,
                        wordinfo.score.1 <= 1073741824,
                ;
            }
            let score = wordinfo.score.0 * wordinfo.score.1 + wordinfo.score.2 + bonus;
            let word = ValidWord {
                position: Grid::pos_to_ref(wordinfo.position, direction),
                rack: wordinfo.rack,
                word: wordinfo.prefix.clone(),
                score,
            };
            proof {
                assert(spec_plays(words@.push(word)) =~= spec_plays(words@).push(word@));
            }
            words.push(word);
        }
        k = k + 1;
    }
    proof {
        assert(outcomes.take(k as int) =~= outcomes);
    }
    words
}

/// The placements through the anchor `(i, j)` of words that read to the
/// right on `grid`.
pub fn anchor_solutions(
    i: usize,
    j: usize,
    grid: &Grid,
    rack: &Rack,
    index: &Gaddag,
    direction: bool,
) -> (words: Vec<ValidWord>)
    requires
        index.wf(),
        i < GRID_SIZE,
        j < GRID_SIZE,
    ensures
        spec_plays(words@) == spec_anchor_plays(
            grid@,
            index,
            *rack,
            i as int,
            j as int,
            direction,
        ),
{
    let left_parts = generate_left_parts(i, j, grid, rack, index);
    let valid_left_parts = filter_left_parts(left_parts, index);
    proof {
        assert(spec_level_valid(index, spec_branches(valid_left_parts@), j + 1));
    }
    let right_parts = generate_right_parts(i, j, grid, index, valid_left_parts);
    filter_valid_words(right_parts, direction, index)
}

/// The placements on `grid` of words that read to the right, anchor by
/// anchor and row by row.
pub fn board_solutions(grid: &Grid, rack: &Rack, index: &Gaddag, direction: bool) -> (words: Vec<
    ValidWord,
>)
    requires
        index.wf(),
    ensures
        spec_plays(words@) == spec_board_plays(grid@, index, *rack, direction, GRID_SIZE as int),
{
    let ghost board = grid@;
    let mut words: Vec<ValidWord> = Vec::new();
    let mut i: usize = 0;
    while i < GRID_SIZE
        invariant
            i <= GRID_SIZE,
            index.wf(),
            board == grid@,
            spec_plays(words@) == spec_board_plays(board, index, *rack, direction, i as int),
        decreases GRID_SIZE - i,
    {
        let ghost before = spec_plays(words@);
        let mut j: usize = 0;
        while j < GRID_SIZE
            invariant
                i < GRID_SIZE,
                j <= GRID_SIZE,
                index.wf(),
                board == grid@,
                before == spec_board_plays(board, index, *rack, direction, i as int),
                spec_plays(words@) == before + spec_row_plays(
                    board,
                    index,
                    *rack,
                    direction,
                    i as int,
                    j as int,
                ),
            decreases GRID_SIZE - j,
        {
            proof {
                assert(board.anchors[i as int][j as int] == grid.anchors[i as int][j as int]);
            }
            if grid.anchors[i][j] {
                let mut found = anchor_solutions(i, j, grid, rack, index, direction);
                proof {
                    let row = spec_row_plays(board, index, *rack, direction, i as int, j as int);
                    assert(spec_plays(words@ + found@) =~= spec_plays(words@) + spec_plays(found@));
                    assert((before + row) + spec_plays(found@) =~= before + (row + spec_plays(
                        found@,
                    )));
                }
                words.append(&mut found);
            } else {
                proof {
                    let row = spec_row_plays(board, index, *rack, direction, i as int, j as int);
                    assert(row + Seq::<Play>::empty() =~= row);
                }
            }
            j = j + 1;
        }
        i = i + 1;
    }
    words
}

/// Every placement that `rack` allows on `grid`, each with its score: the
/// words that read to the right, then the words that read downwards. The
/// anchors and the cross tables of `grid` are taken as they stand.
pub fn generate_solutions(grid: &Grid, rack: &Rack, index: &Gaddag) -> (valid_words: Vec<ValidWord>)
    requires
        index.wf(),
    ensures
        spec_plays(valid_words@) == spec_solutions(grid@, index, *rack),
{
    let mut valid_words = board_solutions(grid, rack, index, true);
    let transposed = grid.transpose_grid(index);
    let mut downwards = board_solutions(&transposed, rack, index, false);
    proof {
        assert(spec_plays(valid_words@ + downwards@) =~= spec_plays(valid_words@) + spec_plays(
            downwards@,
        ));
    }
    valid_words.append(&mut downwards);
    valid_words
}

/// The placement to make where the highest score decides: the first of
/// those with the highest score, by its position in `words`; `None` where
/// there is no placement.
pub fn best_play(words: &Vec<ValidWord>) -> (best: Option<usize>)
    ensures
        best is None <==> words@.len() == 0,
        best matches Some(k) ==> {
            &&& k < words@.len()
            &&& forall|m: int| 0 <= m < words@.len() ==> words@[m].score <= words@[k as int].score
            &&& forall|m: int| 0 <= m < k ==> words@[m].score < words@[k as int].score
        },
{
    if words.len() == 0 {
        return None;
    }
    let mut best: usize = 0;
    let mut k: usize = 1;
    while k < words.len()
        invariant
            1 <= k <= words.len(),
            best < k,
            forall|m: int| 0 <= m < k ==> words@[m].score <= words@[best as int].score,
            forall|m: int| 0 <= m < best ==> words@[m].score < words@[best as int].score,
        decreases words.len() - k,
    {
        if words[k].score > words[best].score {
            best = k;
        }
        k = k + 1;
    }
    Some(best)
}

/// Where nothing is there, nothing is kept.
pub proof fn lemma_somes_of_none<T>(s: Seq<Option<T>>)
    requires
        forall|k: int| 0 <= k < s.len() ==> (#[trigger] s[k]) is None,
    ensures
        spec_somes(s) == Seq::<T>::empty(),
    decreases s.len(),
{
    if s.len() > 0 {
        assert(s.last() is None);
        lemma_somes_of_none(s.drop_last());
    }
}

/// From no branch no branch comes, however far the search goes to the right.
pub proof fn lemma_right_parts_of_none(board: Board, index: &Gaddag, i: int, y: int)
    ensures
        spec_right_parts(board, index, Seq::empty(), i, y) == Seq::<Branch>::empty(),
    decreases GRID_SIZE - y,
{
    let none = Seq::<Branch>::empty();
    if y < GRID_SIZE {
        if board.squares[i][y] is Letter {
            let letter = board.squares[i][y]->Letter_0;
            assert(none.map_values(|b: Branch| spec_forced(index, b, letter)) =~= Seq::<
                Option<Branch>,
            >::empty());
            assert(spec_force_level(index, none, letter) == none);
        }
        lemma_right_parts_of_none(board, index, i, y + 1);
        assert(none + none =~= none);
    }
}

/// From no branch no branch comes, however far the search goes to the left.
pub proof fn lemma_free_left_of_none(board: Board, index: &Gaddag, i: int, col: int, limit: int)
    ensures
        spec_free_left(board, index, Seq::empty(), i, col, limit) == Seq::<Branch>::empty(),
    decreases col - limit + 1,
{
    let none = Seq::<Branch>::empty();
    if col >= limit {
        lemma_free_left_of_none(board, index, i, col - 1, limit);
        assert(none + none =~= none);
    }
}

/// A cell whose cross table is there and holds no letter takes no tile: no
/// branch grows onto it.
pub proof fn lemma_closed_cell_takes_no_tile(board: Board, index: &Gaddag, b: Branch, i: int, j: int)
    requires
        board.tables[i][j] matches Some(t) && forall|c: char| !t.dom().contains(c),
    ensures
        spec_step(board, index, b, i, j) == Seq::<Branch>::empty(),
{
    let attempts = Seq::new(
        2 * ALPHABET_SIZE as nat,
        |k: int| spec_attempt(board, index, b, i, j, k),
    );
    assert forall|k: int| 0 <= k < attempts.len() implies (#[trigger] attempts[k]) is None by {}
    lemma_somes_of_none(attempts);
}

/// No placement goes through an anchor whose cross table is there and holds
/// no letter, in an index where no stored sequence begins with the
/// separator, as the index of a list of words is.
pub proof fn lemma_closed_anchor_has_no_play(
    board: Board,
    index: &Gaddag,
    rack: Rack,
    i: int,
    j: int,
    horizontal: bool,
)
    requires
        Board::spec_in_range(i, j),
        board.tables[i][j] matches Some(t) && forall|c: char| !t.dom().contains(c),
        index.spec_child(ROOT, SEPARATOR) is None,
    ensures
        spec_anchor_plays(board, index, rack, i, j, horizontal) == Seq::<Play>::empty(),
{
    let none = Seq::<Branch>::empty();
    let initial = spec_initial(rack, i, j);
    lemma_closed_cell_takes_no_tile(board, index, initial, i, j);
    let left = spec_left_parts(board, index, rack, i, j);
    let kept = spec_filter_left(index, left);
    if j > 0 && board.spec_occupied(i, j - 1) {
        let letters = board.spec_left_letters(i, j);
        assert(none.map_values(|b: Branch| spec_attach_left(index, b, i, j - letters.len(), letters))
            =~= Seq::<Option<Branch>>::empty());
        assert(left == none);
        assert(left.map_values(|b: Branch| spec_cross_separator(index, b)) =~= Seq::<
            Option<Branch>,
        >::empty());
        assert(kept == none);
    } else {
        let limit = spec_left_limit(board, i, j);
        lemma_left_limit(board, i, j);
        let level = seq![initial];
        assert(level.drop_last() =~= none);
        assert(level.last() == initial);
        assert(spec_expand(board, index, level.drop_last(), i, j) == none);
        assert(spec_expand(board, index, level, i, j) =~= none);
        lemma_free_left_of_none(board, index, i, j - 1, limit);
        assert(left =~= level);
        let results = left.map_values(|b: Branch| spec_cross_separator(index, b));
        assert(results.len() == 1);
        assert(results[0] is None);
        lemma_somes_of_none(results);
        assert(kept == none);
    }
    lemma_right_parts_of_none(board, index, i, j + 1);
    assert(none.map_values(|b: Branch| spec_play_of(index, b, horizontal)) =~= Seq::<
        Option<Play>,
    >::empty());
}

/// The limit of a word's growth to the left lies on the row, at the anchor
/// or left of it.
pub proof fn lemma_left_limit(board: Board, i: int, j: int)
    requires
        0 <= j,
    ensures
        0 <= spec_left_limit(board, i, j) <= j,
    decreases j,
{
    if j > 0 && !board.anchors[i][j - 1] {
        lemma_left_limit(board, i, j - 1);
    }
}

/// The placements are a function of board, rack and index alone: whatever
/// two generations from the same three return holds the same placements, each
/// as often in the one as in the other.
pub proof fn lemma_generation_is_determined(
    board: Board,
    index: &Gaddag,
    rack: Rack,
    first: Seq<Play>,
    second: Seq<Play>,
)
    requires
        first == spec_solutions(board, index, rack),
        second == spec_solutions(board, index, rack),
    ensures
        first == second,
        first.to_multiset() == second.to_multiset(),
{
}

} // verus!

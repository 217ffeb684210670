//! Fixed data of the game: board size, alphabet, tile values, tile counts,
//! premium cells and the bonus for long placements.

use vstd::prelude::*;

verus! {

/// Number of rows and of columns of the board.
pub const GRID_SIZE: usize = 15;

/// Row and column of the center cell.
pub const CENTER: usize = 7;

/// Number of letters of the alphabet.
pub const ALPHABET_SIZE: usize = 26;

/// Number of kinds of tile: the letters of the alphabet and the blank.
pub const TILE_KINDS: usize = 27;

/// The symbol that separates, inside the index, the reversed left part of a
/// word from its right part.
pub const SEPARATOR: char = '!';

/// The blank tile, which stands for any letter and is worth nothing.
pub const WILDCARD: char = '?';

/// The most a single tile is worth.
pub const MAX_LETTER_VALUE: u64 = 10;

/// Whether `c` is one of the 26 upper-case letters of the alphabet.
pub open spec fn spec_is_letter(c: char) -> bool {
    'A' <= c && c <= 'Z'
}

/// The `k`-th letter of the alphabet, counting from 0.
pub open spec fn spec_alphabet_letter(k: int) -> char {
    ((k + 65) as u8) as char
}

/// The kind of a tile as a number: 0 to 25 for `A` to `Z`, 26 for the blank.
pub open spec fn spec_tile_index(c: char) -> Option<int> {
    if spec_is_letter(c) {
        Some(c as u32 - 65)
    } else if c == WILDCARD {
        Some(26)
    } else {
        None
    }
}

/// The tile of kind `k`: the inverse of [`spec_tile_index`].
pub open spec fn spec_tile_letter(k: int) -> char {
    if k == 26 {
        WILDCARD
    } else {
        spec_alphabet_letter(k)
    }
}

/// `c` in upper case, where `c` is a lower-case ASCII letter; else `c`.
pub open spec fn spec_to_upper(c: char) -> char {
    if 'a' <= c && c <= 'z' {
        ((c as u8) - 32) as char
    } else {
        c
    }
}

/// `c` in lower case, where `c` is an upper-case ASCII letter; else `c`.
pub open spec fn spec_to_lower(c: char) -> char {
    if 'A' <= c && c <= 'Z' {
        ((c as u8) + 32) as char
    } else {
        c
    }
}

/// What a tile is worth. Anything that is not an upper-case letter is worth
/// nothing: the blank, and the lower-case letters that stand on the board
/// where a blank was played.
pub open spec fn spec_letter_value(c: char) -> nat {
    if c == 'A' || c == 'E' || c == 'I' || c == 'L' || c == 'N' || c == 'O' || c == 'R' || c == 'S'
        || c == 'T' || c == 'U' {
        1
    } else if c == 'D' || c == 'G' || c == 'M' {
        2
    } else if c == 'B' || c == 'C' || c == 'P' {
        3
    } else if c == 'F' || c == 'H' || c == 'V' {
        4
    } else if c == 'J' || c == 'Q' {
        8
    } else if c == 'K' || c == 'W' || c == 'X' || c == 'Y' || c == 'Z' {
        10
    } else {
        0
    }
}

/// How many tiles of a kind a full bag holds.
pub open spec fn spec_letter_occurrence(c: char) -> nat {
    if c == 'E' {
        15
    } else if c == 'A' {
        9
    } else if c == 'I' {
        8
    } else if c == 'N' || c == 'O' || c == 'R' || c == 'S' || c == 'T' || c == 'U' {
        6
    } else if c == 'L' {
        5
    } else if c == 'D' || c == 'M' {
        3
    } else if c == 'B' || c == 'C' || c == 'F' || c == 'G' || c == 'H' || c == 'P' || c == 'V'
        || c == WILDCARD {
        2
    } else if c == 'J' || c == 'K' || c == 'Q' || c == 'W' || c == 'X' || c == 'Y' || c == 'Z' {
        1
    } else {
        0
    }
}

/// The bonus for placing `n` tiles in one turn: nothing below seven tiles,
/// then 50 for seven and 25 more for each further tile up to fifteen.
pub open spec fn spec_bingo_bonus(n: nat) -> nat {
    if n == 7 {
        50
    } else if n == 8 {
        75
    } else if n == 9 {
        100
    } else if n == 10 {
        125
    } else if n == 11 {
        150
    } else if n == 12 {
        175
    } else if n == 13 {
        200
    } else if n == 14 {
        225
    } else if n == 15 {
        250
    } else {
        0
    }
}

/// Whether `c` is one of the 26 upper-case letters of the alphabet.
pub fn is_letter(c: char) -> (b: bool)
    ensures
        b == spec_is_letter(c),
{
    'A' <= c && c <= 'Z'
}

/// The `k`-th letter of the alphabet, counting from 0.
pub fn alphabet_letter(k: usize) -> (c: char)
    requires
        k < ALPHABET_SIZE,
    ensures
        c == spec_alphabet_letter(k as int),
        spec_is_letter(c),
        spec_tile_index(c) == Some(k as int),
{
    ((k + 65) as u8) as char
}

/// The kind of a tile as a number, or `None` where `c` is no tile.
pub fn tile_index(c: char) -> (r: Option<usize>)
    ensures
        r.is_some() == spec_tile_index(c).is_some(),
        r matches Some(k) ==> spec_tile_index(c) == Some(k as int) && k < TILE_KINDS
            && spec_tile_letter(k as int) == c,
{
    if 'A' <= c && c <= 'Z' {
        Some((c as u32 - 65) as usize)
    } else if c == WILDCARD {
        Some(26)
    } else {
        None
    }
}

/// The tile of kind `k`.
pub fn tile_letter(k: usize) -> (c: char)
    requires
        k < TILE_KINDS,
    ensures
        c == spec_tile_letter(k as int),
        spec_tile_index(c) == Some(k as int),
{
    if k == 26 {
        WILDCARD
    } else {
        alphabet_letter(k)
    }
}

/// `c` in upper case, where `c` is a lower-case ASCII letter; else `c`.
pub fn to_upper(c: char) -> (r: char)
    ensures
        r == spec_to_upper(c),
{
    if 'a' <= c && c <= 'z' {
        ((c as u8) - 32) as char
    } else {
        c
    }
}

/// `c` in lower case, where `c` is an upper-case ASCII letter; else `c`.
pub fn to_lower(c: char) -> (r: char)
    ensures
        r == spec_to_lower(c),
{
    if 'A' <= c && c <= 'Z' {
        ((c as u8) + 32) as char
    } else {
        c
    }
}

/// What a tile is worth; nothing for what is no upper-case letter.
pub fn letter_value(c: char) -> (v: u64)
    ensures
        v == spec_letter_value(c),
        v <= MAX_LETTER_VALUE,
{
    match c {
        'A' | 'E' | 'I' | 'L' | 'N' | 'O' | 'R' | 'S' | 'T' | 'U' => 1,
        'D' | 'G' | 'M' => 2,
        'B' | 'C' | 'P' => 3,
        'F' | 'H' | 'V' => 4,
        'J' | 'Q' => 8,
        'K' | 'W' | 'X' | 'Y' | 'Z' => 10,
        _ => 0,
    }
}

/// How many tiles of a kind a full bag holds.
pub fn letter_occurrence(c: char) -> (n: usize)
    ensures
        n == spec_letter_occurrence(c),
        n <= 15,
{
    match c {
        'E' => 15,
        'A' => 9,
        'I' => 8,
        'N' | 'O' | 'R' | 'S' | 'T' | 'U' => 6,
        'L' => 5,
        'D' | 'M' => 3,
        'B' | 'C' | 'F' | 'G' | 'H' | 'P' | 'V' | '?' => 2,
        'J' | 'K' | 'Q' | 'W' | 'X' | 'Y' | 'Z' => 1,
        _ => 0,
    }
}

/// The bonus for placing `n` tiles in one turn.
pub fn bingo_bonus(n: u8) -> (b: u64)
    ensures
        b == spec_bingo_bonus(n as nat),
        b <= 250,
{
    match n {
        7 => 50,
        8 => 75,
        9 => 100,
        10 => 125,
        11 => 150,
        12 => 175,
        13 => 200,
        14 => 225,
        15 => 250,
        _ => 0,
    }
}

/// The letters of the alphabet are the first 26 kinds of tile, the blank is
/// the last kind, and each kind names one tile.
pub proof fn lemma_tile_kinds(k: int)
    requires
        0 <= k < TILE_KINDS,
    ensures
        spec_tile_index(spec_tile_letter(k)) == Some(k),
        k < ALPHABET_SIZE ==> spec_is_letter(spec_tile_letter(k)) && spec_tile_letter(k)
            == spec_alphabet_letter(k),
        spec_tile_letter(k) != SEPARATOR,
{
}

} // verus!

//! Move generation for a crossword board game: a bidirectional word index,
//! a board that derives anchors and cross-letter tables, and the search that
//! lists every placement a rack allows, each with its score.
//!
//! - `gaddag`: the word index, a trie that stores every word once for each
//!   of its letters, and what a walk in it means.
//! - `grid`: the board, its premiums, its anchors and its cross tables.
//! - `rack` and `bag`: the tiles a player holds, and the tiles to draw from.
//! - `solver`: the search from anchor to anchor, and the choice of the
//!   placement that scores most.
//! - `legal` and `complete`: what the search lists is what the game allows,
//!   and nothing that the game allows is missing.
//! - `display`: the board as text.
//! - `constants` and `text`: the data of the game, and strings.

pub mod bag;
pub mod complete;
pub mod constants;
pub mod display;
pub mod gaddag;
pub mod grid;
pub mod legal;
pub mod rack;
pub mod solver;
pub mod text;

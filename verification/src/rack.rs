//! The rack: how many tiles of each kind a player holds.

use crate::constants::{
    spec_tile_index, spec_tile_letter, tile_index, TILE_KINDS,
};
use vstd::array::spec_array_update;
use vstd::prelude::*;

verus! {

/// A multiset of tiles, one counter for each of the 27 kinds of tile. A tile
/// is an upper-case letter or the blank `?`; no other character can be held.
#[derive(Clone, Copy, Debug, PartialEq, Eq)]
pub struct Rack {
    pub counts: [usize; 27],
}

/// The sum of the first `n` counters.
pub open spec fn spec_sum_counts(counts: Seq<usize>, n: int) -> nat
    decreases n,
{
    if n <= 0 {
        0
    } else {
        spec_sum_counts(counts, n - 1) + counts[n - 1] as nat
    }
}

/// A counter is no more than the sum it is part of.
pub proof fn lemma_count_le_sum(counts: Seq<usize>, n: int, k: int)
    requires
        0 <= k < n <= counts.len(),
    ensures
        counts[k] <= spec_sum_counts(counts, n),
        spec_sum_counts(counts, k + 1) <= spec_sum_counts(counts, n),
    decreases n,
{
    if k < n - 1 {
        lemma_count_le_sum(counts, n - 1, k);
    }
}

/// Changing one counter by some amount changes the sum by that amount.
pub proof fn lemma_sum_update(counts: Seq<usize>, n: int, k: int, v: usize)
    requires
        0 <= k < counts.len(),
        0 <= n <= counts.len(),
    ensures
        spec_sum_counts(counts.update(k, v), n) == if k < n {
            spec_sum_counts(counts, n) - counts[k] + v
        } else {
            spec_sum_counts(counts, n) as int
        },
    decreases n,
{
    if n > 0 {
        lemma_sum_update(counts, n - 1, k, v);
        if k < n - 1 {
            lemma_count_le_sum(counts, n - 1, k);
        }
    }
}

impl View for Rack {
    type V = Map<char, nat>;

    /// The tiles held, each with the number of times it is held.
    open spec fn view(&self) -> Map<char, nat> {
        Map::new(|c: char| self.spec_count(c) > 0, |c: char| self.spec_count(c))
    }
}

impl Rack {
    /// How many tiles of kind `letter` are held; 0 for a character that is no
    /// tile.
    pub open spec fn spec_count(&self, letter: char) -> nat {
        match spec_tile_index(letter) {
            Some(k) => self.counts[k] as nat,
            None => 0,
        }
    }

    /// How many tiles are held in all.
    pub open spec fn spec_total(&self) -> nat {
        spec_sum_counts(self.counts@, TILE_KINDS as int)
    }

    /// The rack with one tile of kind `letter` less; the same rack where it
    /// holds none.
    pub open spec fn spec_without(&self, letter: char) -> Rack {
        match spec_tile_index(letter) {
            Some(k) => if self.counts[k] > 0 {
                Rack { counts: spec_array_update(self.counts, k, (self.counts[k] - 1) as usize) }
            } else {
                *self
            },
            None => *self,
        }
    }

    /// The rack with one tile of kind `letter` more; the same rack where
    /// `letter` is no tile.
    pub open spec fn spec_with(&self, letter: char) -> Rack {
        match spec_tile_index(letter) {
            Some(k) => Rack { counts: spec_array_update(self.counts, k, (self.counts[k] + 1) as usize) },
            None => *self,
        }
    }

    /// The empty rack.
    pub fn new() -> (rack: Rack)
        ensures
            forall|k: int| 0 <= k < TILE_KINDS ==> rack.counts[k] == 0,
            forall|c: char| rack.spec_count(c) == 0,
            rack.spec_total() == 0,
    {
        let rack = Rack { counts: [0; 27] };
        proof {
            lemma_sum_zero(rack.counts@, TILE_KINDS as int);
        }
        rack
    }

    /// How many tiles of kind `letter` the rack holds.
    pub fn count(&self, letter: char) -> (n: usize)
        ensures
            n == self.spec_count(letter),
    {
        match tile_index(letter) {
            Some(k) => self.counts[k],
            None => 0,
        }
    }

    /// Adds one tile. Returns whether `letter` is a tile; if it is not, the
    /// rack stays as it was.
    pub fn add(&mut self, letter: char) -> (added: bool)
        requires
            old(self).spec_count(letter) < usize::MAX,
        ensures
            added == spec_tile_index(letter).is_some(),
            *final(self) == old(self).spec_with(letter),
            final(self).spec_count(letter) == old(self).spec_count(letter) + if added {
                1nat
            } else {
                0nat
            },
            forall|c: char| c != letter ==> final(self).spec_count(c) == old(self).spec_count(c),
            final(self).spec_total() == old(self).spec_total() + if added {
                1nat
            } else {
                0nat
            },
    {
        match tile_index(letter) {
            Some(k) => {
                let n: usize = self.counts[k];
                proof {
                    lemma_sum_update(self.counts@, TILE_KINDS as int, k as int, (n + 1) as usize);
                }
                self.counts[k] = n + 1;
                true
            },
            None => false,
        }
    }

    /// Takes one tile of kind `letter` away. A rack that holds none is
    /// returned as it is.
    pub fn without(&self, letter: char) -> (rack: Rack)
        ensures
            rack == self.spec_without(letter),
            rack.spec_count(letter) == if self.spec_count(letter) > 0 {
                self.spec_count(letter) - 1
            } else {
                0
            },
            forall|c: char| c != letter ==> rack.spec_count(c) == self.spec_count(c),
            rack.spec_total() == if self.spec_count(letter) > 0 {
                self.spec_total() - 1
            } else {
                self.spec_total() as int
            },
    {
        let mut rack = *self;
        match tile_index(letter) {
            Some(k) => {
                let n: usize = rack.counts[k];
                if n > 0 {
                    proof {
                        lemma_sum_update(
                            self.counts@,
                            TILE_KINDS as int,
                            k as int,
                            (n - 1) as usize,
                        );
                    }
                    rack.counts[k] = n - 1;
                }
            },
            None => {},
        }
        rack
    }

    /// The number of tiles held.
    pub fn total(&self) -> (n: usize)
        requires
            self.spec_total() <= usize::MAX,
        ensures
            n == self.spec_total(),
    {
        let mut n: usize = 0;
        let mut k: usize = 0;
        while k < TILE_KINDS
            invariant
                k <= TILE_KINDS,
                n == spec_sum_counts(self.counts@, k as int),
                self.spec_total() <= usize::MAX,
            decreases TILE_KINDS - k,
        {
            proof {
                lemma_count_le_sum(self.counts@, TILE_KINDS as int, k as int);
            }
            n = n + self.counts[k];
            k = k + 1;
        }
        n
    }

    /// Whether the rack holds no tile.
    pub fn is_empty(&self) -> (b: bool)
        ensures
            b == (forall|c: char| self.spec_count(c) == 0),
            b == (self.spec_total() == 0),
    {
        let mut k: usize = 0;
        while k < TILE_KINDS
            invariant
                k <= TILE_KINDS,
                forall|m: int| 0 <= m < k ==> self.counts[m] == 0,
            decreases TILE_KINDS - k,
        {
            if self.counts[k] != 0 {
                proof {
                    lemma_count_le_sum(self.counts@, TILE_KINDS as int, k as int);
                    crate::constants::lemma_tile_kinds(k as int);
                    assert(self.spec_count(spec_tile_letter(k as int)) != 0);
                }
                return false;
            }
            k = k + 1;
        }
        proof {
            lemma_sum_zero(self.counts@, TILE_KINDS as int);
        }
        true
    }
}

/// Taking a tile away lowers the count of its kind by one, if the rack holds
/// one, and leaves the other counts as they are.
pub proof fn lemma_without_counts(rack: Rack, letter: char, c: char)
    ensures
        rack.spec_without(letter).spec_count(c) == if c == letter && rack.spec_count(letter) > 0 {
            (rack.spec_count(c) - 1) as nat
        } else {
            rack.spec_count(c)
        },
{
}

/// Counters that are all zero add up to zero.
pub proof fn lemma_sum_zero(counts: Seq<usize>, n: int)
    requires
        0 <= n <= counts.len(),
        forall|k: int| 0 <= k < n ==> counts[k] == 0,
    ensures
        spec_sum_counts(counts, n) == 0,
    decreases n,
{
    if n > 0 {
        lemma_sum_zero(counts, n - 1);
    }
}

} // verus!

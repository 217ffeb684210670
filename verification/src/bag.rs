//! The bag of tiles, and moving tiles between the bag and a rack.

use crate::constants::{
    letter_occurrence, lemma_tile_kinds, spec_letter_occurrence, spec_tile_index, spec_tile_letter,
    tile_letter, TILE_KINDS,
};
use crate::rack::{lemma_count_le_sum, Rack};
use crate::text::string_push;
use rand::Rng;
use vstd::multiset::Multiset;
use vstd::prelude::*;
use vstd::seq_lib::lemma_multiset_commutative;

verus! {

/// The generator of random numbers of the `rand` crate that belongs to the
/// current thread.
#[verifier::external_type_specification]
#[verifier::external_body]
pub struct ExThreadRng(rand::rngs::ThreadRng);

/// `rand::thread_rng`: a handle to the current thread's generator. Nothing
/// is claimed of it.
#[verifier::external_body]
fn thread_generator() -> rand::rngs::ThreadRng {
    rand::thread_rng()
}

/// `Rng::gen_range` on the range from 0 up to and without `n`: some number
/// of that range. For an empty range the call panics, so `n` must not be 0.
/// Which number comes is not said: two calls may differ.
#[verifier::external_body]
fn random_below(generator: &mut rand::rngs::ThreadRng, n: usize) -> (index: usize)
    requires
        n > 0,
    ensures
        index < n,
{
    generator.gen_range(0..n)
}

/// The tiles in the bag, in no order that matters.
pub struct Bag {
    pub bag: Vec<char>,
}

/// The tiles of the first `n` kinds, each kind as often as `counts` says,
/// kind by kind.
pub open spec fn spec_spread(counts: Seq<usize>, n: int) -> Seq<char>
    decreases n,
{
    if n <= 0 {
        Seq::empty()
    } else {
        spec_spread(counts, n - 1) + spec_run(spec_tile_letter(n - 1), counts[n - 1] as nat)
    }
}

/// The tile `letter`, `n` times.
pub open spec fn spec_run(letter: char, n: nat) -> Seq<char> {
    Seq::new(n, |k: int| letter)
}

/// How many tiles of each kind a full bag holds, kind by kind.
pub open spec fn spec_occurrences() -> Seq<usize> {
    Seq::new(TILE_KINDS as nat, |k: int| spec_letter_occurrence(spec_tile_letter(k)) as usize)
}

/// Whether every element of `tiles` is a tile.
pub open spec fn spec_all_tiles(tiles: Seq<char>) -> bool {
    forall|k: int| 0 <= k < tiles.len() ==> spec_tile_index(#[trigger] tiles[k]) is Some
}

/// A run of a tile holds that tile as often as it is long, and no other.
pub proof fn lemma_run_count(letter: char, n: nat, c: char)
    ensures
        spec_run(letter, n).to_multiset().count(c) == if c == letter {
            n
        } else {
            0
        },
    decreases n,
{
    broadcast use vstd::seq_lib::group_to_multiset_ensures;

    if n == 0 {
        assert(spec_run(letter, n) =~= Seq::<char>::empty());
    } else {
        lemma_run_count(letter, (n - 1) as nat, c);
        assert(spec_run(letter, n) =~= spec_run(letter, (n - 1) as nat).push(letter));
    }
}

/// The tiles spread out from counts hold each of the first `n` kinds as
/// often as its count says, and nothing else.
pub proof fn lemma_spread_count(counts: Seq<usize>, n: int, c: char)
    requires
        0 <= n <= TILE_KINDS,
        counts.len() == TILE_KINDS,
    ensures
        spec_spread(counts, n).to_multiset().count(c) == match spec_tile_index(c) {
            Some(k) => if k < n {
                counts[k] as nat
            } else {
                0
            },
            None => 0,
        },
        spec_all_tiles(spec_spread(counts, n)),
    decreases n,
{
    broadcast use vstd::seq_lib::group_to_multiset_ensures;

    if n <= 0 {
        assert(spec_spread(counts, n) =~= Seq::<char>::empty());
    } else {
        lemma_spread_count(counts, n - 1, c);
        let letter = spec_tile_letter(n - 1);
        lemma_tile_kinds(n - 1);
        lemma_run_count(letter, counts[n - 1] as nat, c);
        lemma_multiset_commutative(spec_spread(counts, n - 1), spec_run(letter, counts[n - 1] as nat));
    }
}

impl View for Bag {
    type V = Multiset<char>;

    /// The tiles in the bag, each as often as it is there.
    open spec fn view(&self) -> Multiset<char> {
        self.bag@.to_multiset()
    }
}

impl Bag {
    /// Whether the bag holds tiles only.
    pub open spec fn wf(&self) -> bool {
        spec_all_tiles(self.bag@)
    }

    /// The full bag: every kind of tile as often as the game has it.
    pub fn new() -> (bag: Bag)
        ensures
            bag.bag@ == spec_spread(spec_occurrences(), TILE_KINDS as int),
            bag.wf(),
            forall|c: char| bag@.count(c) == spec_letter_occurrence(c),
    {
        let ghost counts = spec_occurrences();
        let mut tiles: Vec<char> = Vec::new();
        let mut k: usize = 0;
        while k < TILE_KINDS
            invariant
                k <= TILE_KINDS,
                counts == spec_occurrences(),
                tiles@ == spec_spread(counts, k as int),
            decreases TILE_KINDS - k,
        {
            let letter = tile_letter(k);
            let n = letter_occurrence(letter);
            let mut m: usize = 0;
            while m < n
                invariant
                    m <= n,
                    k < TILE_KINDS,
                    letter == spec_tile_letter(k as int),
                    tiles@ == spec_spread(counts, k as int) + spec_run(letter, m as nat),
                decreases n - m,
            {
                tiles.push(letter);
                m = m + 1;
                proof {
                    assert(spec_run(letter, m as nat) =~= spec_run(letter, (m - 1) as nat).push(
                        letter,
                    ));
                    assert(tiles@ =~= spec_spread(counts, k as int) + spec_run(letter, m as nat));
                }
            }
            k = k + 1;
        }
        let bag = Bag { bag: tiles };
        proof {
            assert forall|c: char| bag@.count(c) == spec_letter_occurrence(c) by {
                lemma_spread_count(counts, TILE_KINDS as int, c);
                if let Some(k) = spec_tile_index(c) {
                    assert(spec_tile_letter(k) == c);
                }
            }
            lemma_spread_count(counts, TILE_KINDS as int, 'A');
        }
        bag
    }

    /// Takes the tile at position `index` out of the bag.
    pub fn take(&mut self, index: usize) -> (letter: char)
        requires
            index < old(self).bag@.len(),
        ensures
            letter == old(self).bag@[index as int],
            final(self).bag@ == old(self).bag@.remove(index as int),
            final(self)@ == old(self)@.remove(letter),
            old(self).wf() ==> final(self).wf() && spec_tile_index(letter) is Some,
    {
        broadcast use vstd::seq_lib::group_to_multiset_ensures;

        let letter = self.bag.remove(index);
        proof {
            if old(self).wf() {
                assert forall|k: int| 0 <= k < self.bag@.len() implies spec_tile_index(
                    #[trigger] self.bag@[k],
                ) is Some by {
                    if k < index {
                        assert(self.bag@[k] == old(self).bag@[k]);
                    } else {
                        assert(self.bag@[k] == old(self).bag@[k + 1]);
                    }
                }
            }
        }
        letter
    }

    /// Draws `nb_letters` tiles at random. Which tiles come is a matter of
    /// chance; together with what stays they are what the bag held.
    pub fn draw(&mut self, nb_letters: usize) -> (drawn: Vec<char>)
        requires
            nb_letters <= old(self).bag@.len(),
        ensures
            drawn@.len() == nb_letters,
            final(self).bag@.len() == old(self).bag@.len() - nb_letters,
            old(self)@ == final(self)@.add(drawn@.to_multiset()),
            old(self).wf() ==> final(self).wf() && spec_all_tiles(drawn@),
    {
        broadcast use vstd::seq_lib::group_to_multiset_ensures;

        let mut generator = thread_generator();
        let mut drawn: Vec<char> = Vec::new();
        let mut k: usize = 0;
        proof {
            assert(drawn@.to_multiset() =~= Multiset::<char>::empty());
            assert(old(self)@ =~= self@.add(drawn@.to_multiset()));
        }
        while k < nb_letters
            invariant
                k <= nb_letters <= old(self).bag@.len(),
                drawn@.len() == k,
                self.bag@.len() == old(self).bag@.len() - k,
                old(self)@ == self@.add(drawn@.to_multiset()),
                old(self).wf() ==> self.wf() && spec_all_tiles(drawn@),
            decreases nb_letters - k,
        {
            let index = random_below(&mut generator, self.bag.len());
            let ghost before = self@;
            let ghost had_bag = self.bag@;
            let ghost had = drawn@;
            let letter = self.take(index);
            drawn.push(letter);
            proof {
                vstd::seq_lib::to_multiset_build(had, letter);
                assert(drawn@ =~= had.push(letter));
                assert(before.count(letter) > 0) by {
                    had_bag.to_multiset_ensures();
                    assert(had_bag.contains(letter));
                }
                assert(before.remove(letter).add(had.to_multiset().insert(letter)) =~= before.add(
                    had.to_multiset(),
                ));
            }
            k = k + 1;
        }
        drawn
    }

    /// Puts every tile of `rack` back into the bag, kind by kind, and leaves
    /// the rack empty.
    pub fn discard(&mut self, rack: &mut Rack)
        ensures
            final(self).bag@ == old(self).bag@ + spec_spread(old(rack).counts@, TILE_KINDS as int),
            forall|c: char| final(self)@.count(c) == old(self)@.count(c) + old(rack).spec_count(c),
            forall|c: char| final(rack).spec_count(c) == 0,
            old(self).wf() ==> final(self).wf(),
    {
        broadcast use vstd::seq_lib::group_to_multiset_ensures;

        let ghost counts = rack.counts@;
        let mut k: usize = 0;
        while k < TILE_KINDS
            invariant
                k <= TILE_KINDS,
                counts == old(rack).counts@,
                rack.counts == old(rack).counts,
                self.bag@ == old(self).bag@ + spec_spread(counts, k as int),
            decreases TILE_KINDS - k,
        {
            let letter = tile_letter(k);
            let n = rack.counts[k];
            let mut m: usize = 0;
            while m < n
                invariant
                    m <= n,
                    k < TILE_KINDS,
                    n == counts[k as int],
                    counts == old(rack).counts@,
                    rack.counts == old(rack).counts,
                    letter == spec_tile_letter(k as int),
                    self.bag@ == old(self).bag@ + spec_spread(counts, k as int) + spec_run(
                        letter,
                        m as nat,
                    ),
                decreases n - m,
            {
                self.bag.push(letter);
                m = m + 1;
                proof {
                    assert(spec_run(letter, m as nat) =~= spec_run(letter, (m - 1) as nat).push(
                        letter,
                    ));
                    assert(self.bag@ =~= old(self).bag@ + spec_spread(counts, k as int) + spec_run(
                        letter,
                        m as nat,
                    ));
                }
            }
            proof {
                assert(self.bag@ =~= old(self).bag@ + spec_spread(counts, k + 1));
            }
            k = k + 1;
        }
        *rack = Rack::new();
        proof {
            let added = spec_spread(counts, TILE_KINDS as int);
            lemma_multiset_commutative(old(self).bag@, added);
            assert forall|c: char| self@.count(c) == old(self)@.count(c) + old(rack).spec_count(
                c,
            ) by {
                lemma_spread_count(counts, TILE_KINDS as int, c);
            }
            lemma_spread_count(counts, TILE_KINDS as int, 'A');
            if old(self).wf() {
                assert forall|k: int| 0 <= k < self.bag@.len() implies spec_tile_index(
                    #[trigger] self.bag@[k],
                ) is Some by {
                    if k < old(self).bag@.len() {
                        assert(self.bag@[k] == old(self).bag@[k]);
                    } else {
                        assert(self.bag@[k] == added[k - old(self).bag@.len()]);
                    }
                }
            }
        }
    }

    /// Fills `rack` from the bag at random until it holds `lim` tiles or the
    /// bag is empty. No tile is lost or made: what bag and rack hold
    /// together stays the same.
    pub fn valid_draw(&mut self, rack: &mut Rack, lim: usize)
        requires
            old(self).wf(),
            old(rack).spec_total() <= lim,
        ensures
            final(self).wf(),
            final(rack).spec_total() == old(rack).spec_total() + spec_drawn(
                old(self).bag@.len(),
                old(rack).spec_total(),
                lim as nat,
            ),
            final(self).bag@.len() == old(self).bag@.len() - spec_drawn(
                old(self).bag@.len(),
                old(rack).spec_total(),
                lim as nat,
            ),
            forall|c: char|
                final(self)@.count(c) + final(rack).spec_count(c) == old(self)@.count(c) + old(
                    rack,
                ).spec_count(c),
    {
        let rack_len = rack.total();
        let wanted = lim - rack_len;
        let drawn_letters = if self.bag.len() <= wanted {
            self.draw(self.bag.len())
        } else {
            self.draw(wanted)
        };
        let ghost drawn = drawn_letters@;
        augment_rack(rack, drawn_letters);
        proof {
            assert forall|c: char|
                self@.count(c) + rack.spec_count(c) == old(self)@.count(c) + old(rack).spec_count(
                    c,
                ) by {
                if spec_tile_index(c) is None {
                    drawn.to_multiset_ensures();
                    if drawn.contains(c) {
                        let k = choose|k: int| 0 <= k < drawn.len() && drawn[k] == c;
                        assert(spec_tile_index(drawn[k]) is Some);
                    }
                }
            }
        }
    }
}

/// How many tiles a draw moves: as many as the rack lacks, or all that the
/// bag holds if these are fewer.
pub open spec fn spec_drawn(in_bag: nat, in_rack: nat, lim: nat) -> nat {
    if in_bag <= lim - in_rack {
        in_bag
    } else {
        (lim - in_rack) as nat
    }
}

/// Adds the tiles `letters` to `rack`. What is no tile is left out.
pub fn augment_rack(rack: &mut Rack, letters: Vec<char>)
    requires
        old(rack).spec_total() + letters@.len() <= usize::MAX,
    ensures
        forall|c: char|
            spec_tile_index(c) is Some ==> final(rack).spec_count(c) == old(rack).spec_count(c)
                + letters@.to_multiset().count(c),
        spec_all_tiles(letters@) ==> final(rack).spec_total() == old(rack).spec_total()
            + letters@.len(),
{
    broadcast use vstd::seq_lib::group_to_multiset_ensures;

    let mut k: usize = 0;
    proof {
        assert(letters@.take(0) =~= Seq::<char>::empty());
    }
    while k < letters.len()
        invariant
            k <= letters.len(),
            old(rack).spec_total() + letters@.len() <= usize::MAX,
            rack.spec_total() <= old(rack).spec_total() + k,
            forall|c: char|
                spec_tile_index(c) is Some ==> rack.spec_count(c) == old(rack).spec_count(c)
                    + letters@.take(k as int).to_multiset().count(c),
            spec_all_tiles(letters@) ==> rack.spec_total() == old(rack).spec_total() + k,
        decreases letters.len() - k,
    {
        let letter = letters[k];
        proof {
            assert(letters@.take(k + 1) =~= letters@.take(k as int).push(letter));
            vstd::seq_lib::to_multiset_build(letters@.take(k as int), letter);
            if let Some(kind) = spec_tile_index(letter) {
                lemma_count_le_sum(rack.counts@, TILE_KINDS as int, kind);
            }
        }
        let added = rack.add(letter);
        k = k + 1;
    }
    proof {
        assert(letters@.take(k as int) =~= letters@);
    }
}

/// The tiles of `rack` as text: kind by kind in the order of the alphabet,
/// the blanks last, each tile as often as the rack holds it.
pub fn rack_to_string(rack: &Rack) -> (text: String)
    ensures
        text@ == spec_spread(rack.counts@, TILE_KINDS as int),
{
    let mut text = String::new();
    let mut k: usize = 0;
    while k < TILE_KINDS
        invariant
            k <= TILE_KINDS,
            text@ == spec_spread(rack.counts@, k as int),
        decreases TILE_KINDS - k,
    {
        let letter = tile_letter(k);
        let n = rack.counts[k];
        let mut m: usize = 0;
        while m < n
            invariant
                m <= n,
                k < TILE_KINDS,
                n == rack.counts@[k as int],
                letter == spec_tile_letter(k as int),
                text@ == spec_spread(rack.counts@, k as int) + spec_run(letter, m as nat),
            decreases n - m,
        {
            string_push(&mut text, letter);
            m = m + 1;
            proof {
                assert(spec_run(letter, m as nat) =~= spec_run(letter, (m - 1) as nat).push(letter));
                assert(text@ =~= spec_spread(rack.counts@, k as int) + spec_run(letter, m as nat));
            }
        }
        k = k + 1;
    }
    text
}

} // verus!

//! The random stream that sampling draws from.

use rand::seq::SliceRandom;
use rand::{Rng, RngCore, SeedableRng};
use rand_chacha::ChaCha8Rng;
use vstd::prelude::*;

use crate::number::{le, Real, Wide};

verus! {

/// The list that `rand::seq::SliceRandom::shuffle` leaves when it draws from the
/// ChaCha8 stream of `seed`, from its 32-bit word `pos` on, and the word at which
/// it stops.
pub uninterp spec fn chacha8_shuffle(seed: u64, pos: u128, items: Seq<u32>) -> (Seq<u32>, u128);

/// The next 64 bits of the ChaCha8 stream of `seed` at word `pos`, and the word
/// after them.
pub uninterp spec fn chacha8_word(seed: u64, pos: u128) -> (u64, u128);

/// The number below `bound` that `rand::Rng::gen_range` draws from the ChaCha8
/// stream of `seed` at word `pos`, and the word at which it stops.
pub uninterp spec fn chacha8_below(seed: u64, pos: u128, bound: u64) -> (u64, u128);

/// Calls `SliceRandom::shuffle` on a `ChaCha8Rng` that was seeded with
/// `seed_from_u64` and moved to word `pos` with `set_word_pos`; `get_word_pos`
/// tells where it stopped. Seed and word determine everything the generator puts
/// out. Shuffling swaps items, so it keeps each of them; how they end up is only
/// named. Lists of up to `u32::MAX` items are shuffled alike on every machine.
#[verifier::external_body]
fn shuffle_at(seed: u64, pos: u128, items: &mut Vec<u32>) -> (next: u128)
    requires
        old(items)@.len() <= u32::MAX,
    ensures
        (final(items)@, next) == chacha8_shuffle(seed, pos, old(items)@),
        final(items)@.to_multiset() == old(items)@.to_multiset(),
{
    let mut rng = ChaCha8Rng::seed_from_u64(seed);
    rng.set_word_pos(pos);
    items.shuffle(&mut rng);
    rng.get_word_pos()
}

/// Calls `RngCore::next_u64` on a `ChaCha8Rng` at word `pos`; the bits are only
/// named.
#[verifier::external_body]
fn word_at(seed: u64, pos: u128) -> (r: (u64, u128))
    ensures
        r == chacha8_word(seed, pos),
{
    let mut rng = ChaCha8Rng::seed_from_u64(seed);
    rng.set_word_pos(pos);
    let word = rng.next_u64();
    (word, rng.get_word_pos())
}

/// Calls `Rng::gen_range` on a `ChaCha8Rng` at word `pos`, with the range
/// `0..bound`: the result lies in that range, and which it is, is only named.
#[verifier::external_body]
fn below_at(seed: u64, pos: u128, bound: u64) -> (r: (u64, u128))
    requires
        bound > 0,
    ensures
        r == chacha8_below(seed, pos, bound),
        r.0 < bound,
{
    let mut rng = ChaCha8Rng::seed_from_u64(seed);
    rng.set_word_pos(pos);
    let value = rng.gen_range(0..bound);
    (value, rng.get_word_pos())
}

/// A place in the random stream of a seed. Everything that is drawn depends on
/// the seed and on what was drawn before, on nothing else.
#[derive(Debug, Clone, Copy, PartialEq, Eq, Structural)]
pub struct Draws {
    pub seed: u64,
    pub pos: u128,
}

/// The number in `[0, 1)` that the top 53 of 64 random bits stand for.
pub open spec fn unit_of<R: Real>(word: u64) -> R {
    R::ratio_of(word >> 11, 0x20_0000_0000_0000)
}

impl Draws {
    /// The start of the stream of `seed`.
    pub fn new(seed: u64) -> (d: Self)
        ensures
            d == (Draws { seed, pos: 0 }),
    {
        Draws { seed, pos: 0 }
    }

    /// Put a list into random order.
    pub fn shuffle(&mut self, items: &mut Vec<u32>)
        requires
            old(items)@.len() <= u32::MAX,
        ensures
            final(self).seed == old(self).seed,
            (final(items)@, final(self).pos) == chacha8_shuffle(
                old(self).seed,
                old(self).pos,
                old(items)@,
            ),
            final(items)@.to_multiset() == old(items)@.to_multiset(),
    {
        self.pos = shuffle_at(self.seed, self.pos, items);
    }

    /// Draw a number from `[0, 1)`.
    pub fn unit<W: Wide>(&mut self) -> (r: W)
        ensures
            final(self).seed == old(self).seed,
            r == unit_of::<W>(chacha8_word(old(self).seed, old(self).pos).0),
            final(self).pos == chacha8_word(old(self).seed, old(self).pos).1,
    {
        let (word, pos) = word_at(self.seed, self.pos);
        self.pos = pos;
        W::ratio(word >> 11, 0x20_0000_0000_0000)
    }

    /// Draw a number below `bound`.
    pub fn below(&mut self, bound: usize) -> (r: usize)
        requires
            bound > 0,
        ensures
            final(self).seed == old(self).seed,
            r < bound,
            (r as u64, final(self).pos) == chacha8_below(
                old(self).seed,
                old(self).pos,
                bound as u64,
            ),
    {
        let (value, pos) = below_at(self.seed, self.pos, bound as u64);
        self.pos = pos;
        value as usize
    }
}

/// Of `2^53` equal parts of the range of a random word, a word with `bound` parts
/// below it gives a number of at least `bound / 2^53`, any other word one of at most
/// that: the numbers lie between 0 and 1 and spread evenly.
pub proof fn law_unit<W: Wide>(word: u64, bound: u64)
    requires
        bound <= 0x20_0000_0000_0000,
    ensures
        ({
            let mark = W::ratio_of(bound, 0x20_0000_0000_0000);
            &&& word >= bound * 2048 ==> le(mark, unit_of::<W>(word))
            &&& word < bound * 2048 ==> le(unit_of::<W>(word), mark)
            &&& le(W::ratio_of(0, 1), unit_of::<W>(word))
            &&& le(unit_of::<W>(word), W::ratio_of(1, 1))
        }),
{
    let parts: u64 = word >> 11;
    assert(parts == word / 2048 && parts < 0x20_0000_0000_0000) by (bit_vector)
        requires
            parts == word >> 11,
    ;
    let all: u64 = 0x20_0000_0000_0000;
    if word >= bound * 2048 {
        assert(bound * all <= parts * all);
        W::constants_ordered(bound, all, parts, all);
    } else {
        assert(parts * all <= bound * all);
        W::constants_ordered(parts, all, bound, all);
    }
    W::constants_ordered(0, 1, parts, all);
    W::constants_ordered(parts, all, 1, 1);
}

} // verus!

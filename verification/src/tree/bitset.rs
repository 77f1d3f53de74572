//! Sets of bin codes, one bit per code.

use vstd::prelude::*;

verus! {

/// Bit `bin` is set in the little-endian bitset `set`.
pub open spec fn in_set(set: Seq<u64>, bin: nat) -> bool {
    bin / 64 < set.len() && (set[(bin / 64) as int] >> ((bin % 64) as u64)) & 1 == 1
}

/// Bins beyond the bitset count as not in the set.
pub fn bitset_contains(set: &[u64], bin: usize) -> (r: bool)
    ensures
        r == in_set(set@, bin as nat),
{
    let word: usize = bin / 64;
    word < set.len() && (set[word] >> ((bin % 64) as u64)) & 1 == 1
}

/// `set` with empty words appended until it has more than `word` words.
pub open spec fn widened_to(set: Seq<u64>, word: nat) -> Seq<u64> {
    if word < set.len() {
        set
    } else {
        set + Seq::new((word + 1 - set.len()) as nat, |i: int| 0u64)
    }
}

/// `set` with bit `bin` set.
pub open spec fn with_bit(set: Seq<u64>, bin: nat) -> Seq<u64> {
    let wide = widened_to(set, bin / 64);
    let word = (bin / 64) as int;
    wide.update(word, wide[word] | (1u64 << ((bin % 64) as u64)))
}

/// The shortest bitset of the given bin codes.
pub open spec fn bitset_of(bins: Seq<u16>) -> Seq<u64>
    decreases bins.len(),
{
    if bins.len() == 0 {
        Seq::empty()
    } else {
        with_bit(bitset_of(bins.drop_last()), bins.last() as nat)
    }
}

proof fn lemma_or_bit(x: u64, k: u64, j: u64)
    requires
        k < 64,
        j < 64,
    ensures
        (((x | (1u64 << k)) >> j) & 1 == 1) <==> ((x >> j) & 1 == 1 || j == k),
{
    assert((((x | (1u64 << k)) >> j) & 1 == 1) <==> ((x >> j) & 1 == 1 || j == k)) by (bit_vector)
        requires
            k < 64,
            j < 64,
    ;
}

proof fn lemma_zero_word(j: u64)
    requires
        j < 64,
    ensures
        (0u64 >> j) & 1 == 0,
{
    assert((0u64 >> j) & 1 == 0) by (bit_vector)
        requires
            j < 64,
    ;
}

proof fn lemma_with_bit(set: Seq<u64>, bin: nat, c: nat)
    ensures
        in_set(with_bit(set, bin), c) <==> in_set(set, c) || c == bin,
{
    let wide = widened_to(set, bin / 64);
    lemma_zero_word((c % 64) as u64);
    assert(in_set(wide, c) <==> in_set(set, c));
    lemma_or_bit(wide[(bin / 64) as int], (bin % 64) as u64, (c % 64) as u64);
    assert(c / 64 == bin / 64 && c % 64 == bin % 64 ==> c == bin) by {
        assert(c == 64 * (c / 64) + c % 64);
        assert(bin == 64 * (bin / 64) + bin % 64);
    }
}

/// The bitset of a list of bin codes contains exactly the listed codes.
pub proof fn lemma_bitset_of(bins: Seq<u16>, c: u16)
    ensures
        in_set(bitset_of(bins), c as nat) <==> bins.contains(c),
    decreases bins.len(),
{
    if bins.len() > 0 {
        let init = bins.drop_last();
        lemma_bitset_of(init, c);
        lemma_with_bit(bitset_of(init), bins.last() as nat, c as nat);
        if init.contains(c) {
            let i = choose|i: int| 0 <= i < init.len() && init[i] == c;
            assert(bins[i] == c);
        }
        if bins.contains(c) && c != bins.last() {
            let i = choose|i: int| 0 <= i < bins.len() && bins[i] == c;
            assert(init[i] == c);
        }
        assert(bins[bins.len() - 1] == bins.last());
    }
}

/// The bitset with exactly the given bin codes.
pub fn bitset(bins: &[u16]) -> (set: Vec<u64>)
    ensures
        set@ == bitset_of(bins@),
{
    let mut set: Vec<u64> = Vec::new();
    let mut k: usize = 0;
    assert(bins@.take(0) =~= Seq::<u16>::empty());
    while k < bins.len()
        invariant
            k <= bins@.len(),
            set@ == bitset_of(bins@.take(k as int)),
        decreases bins@.len() - k,
    {
        let bin: usize = bins[k] as usize;
        let word: usize = bin / 64;
        let ghost before = set@;
        while set.len() <= word
            invariant
                before.len() <= set@.len(),
                set@.len() <= word + 1 || set@ == before,
                set@ =~= before + Seq::new((set@.len() - before.len()) as nat, |i: int| 0u64),
            decreases word + 1 - set@.len(),
        {
            set.push(0);
        }
        proof {
            assert(set@ =~= widened_to(before, word as nat));
            assert(bins@.take(k + 1).drop_last() =~= bins@.take(k as int));
        }
        let w: u64 = set[word];
        set.set(word, w | (1u64 << ((bin % 64) as u64)));
        k = k + 1;
    }
    assert(bins@.take(bins@.len() as int) =~= bins@);
    set
}

} // verus!

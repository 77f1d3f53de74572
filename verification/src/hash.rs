//! Hashes that stand for the values of categorical features.

use gxhash::GxHasher;
use std::hash::{Hash, Hasher};
use vstd::prelude::*;

verus! {

/// The seed of every category hash.
pub const CATEGORY_SEED: i64 = 42;

/// What gxhash makes of an integer.
pub uninterp spec fn gx_hash_int(seed: i64, value: i64) -> u64;

/// What gxhash makes of a text.
pub uninterp spec fn gx_hash_text(seed: i64, text: Seq<char>) -> u64;

/// Feeds an integer to `gxhash::GxHasher::with_seed` and finishes it. The result
/// depends on the seed and the integer alone; it is only named.
#[verifier::external_body]
fn hash_int_with(seed: i64, value: i64) -> (r: u64)
    ensures
        r == gx_hash_int(seed, value),
{
    let mut hasher = GxHasher::with_seed(seed);
    value.hash(&mut hasher);
    hasher.finish()
}

/// Feeds a text to `gxhash::GxHasher::with_seed` and finishes it. The result
/// depends on the seed and the text alone; it is only named.
#[verifier::external_body]
fn hash_text_with(seed: i64, text: &str) -> (r: u64)
    ensures
        r == gx_hash_text(seed, text@),
{
    let mut hasher = GxHasher::with_seed(seed);
    text.hash(&mut hasher);
    hasher.finish()
}

/// The hash of an integer category.
pub fn hash_int(value: i64) -> (r: u64)
    ensures
        r == gx_hash_int(CATEGORY_SEED, value),
{
    hash_int_with(CATEGORY_SEED, value)
}

/// The hash of a text category.
pub fn hash_text(text: &str) -> (r: u64)
    ensures
        r == gx_hash_text(CATEGORY_SEED, text@),
{
    hash_text_with(CATEGORY_SEED, text)
}

} // verus!

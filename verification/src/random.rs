//! Random numbers, drawn with the `rand` and `rand_distr` crates.
//!
//! Nothing is proved of these draws. Their contracts state what holds of
//! every outcome, as the crates document it, and no more.
use rand::seq::SliceRandom;
use rand::thread_rng;
use rand_distr::{Distribution, Uniform};
use vstd::prelude::*;

verus! {

/// One draw of `Uniform::new(low, high)` from the thread's generator: a
/// number of the half-open range from `low` to `high`. The distribution
/// cannot be made for an empty range.
#[verifier::external_body]
pub(crate) fn sample_uniform(low: u32, high: u32) -> (value: u32)
    requires
        low < high,
    ensures
        low <= value < high,
{
    Uniform::new(low, high).sample(&mut thread_rng())
}

/// `SliceRandom::shuffle` with the thread's generator: the same items in
/// some order.
#[verifier::external_body]
pub(crate) fn shuffle(items: &mut Vec<u32>)
    ensures
        final(items)@.to_multiset() == old(items)@.to_multiset(),
{
    items.shuffle(&mut thread_rng())
}

} // verus!

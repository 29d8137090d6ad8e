//! Thin wrappers around the process-wide random number generator. Nothing
//! is assumed of the draws beyond their range, so every caller is correct
//! for every outcome.

use vstd::prelude::*;

verus! {

/// Relies on rand's `Rng::gen_range` over `0..bound`: the range is
/// non-empty, so the call returns a value below `bound` and does not panic.
#[verifier::external_body]
pub(crate) fn rand_index(bound: usize) -> (r: usize)
    requires
        bound >= 1,
    ensures
        r < bound,
{
    rand::Rng::gen_range(&mut rand::thread_rng(), 0..bound)
}

/// Relies on rand's `SliceRandom::shuffle`: the elements are permuted in
/// place by swaps, so the multiset of elements is unchanged.
#[verifier::external_body]
pub(crate) fn rand_shuffle(pool: &mut Vec<char>)
    ensures
        final(pool)@.len() == old(pool)@.len(),
        final(pool)@.to_multiset() == old(pool)@.to_multiset(),
{
    rand::seq::SliceRandom::shuffle(pool.as_mut_slice(), &mut rand::thread_rng());
}

/// Relies on rand's `SliceRandom::choose_multiple`: with `amount` at most
/// the pool's length it draws `amount` elements of the pool, at pairwise
/// distinct positions.
#[verifier::external_body]
pub(crate) fn rand_sample(pool: &Vec<char>, amount: usize) -> (r: Vec<char>)
    requires
        amount <= pool@.len(),
    ensures
        r@.len() == amount,
        forall|i: int| 0 <= i < r@.len() ==> pool@.contains(r@[i]),
{
    rand::seq::SliceRandom::choose_multiple(pool.as_slice(), &mut rand::thread_rng(), amount)
        .cloned()
        .collect()
}

} // verus!

//! Random draws.

use rand::distributions::{Distribution, WeightedIndex};
use rand::Rng;
use vstd::prelude::*;

verus! {

/// Draws an index below `n` from the thread-local generator.
///
/// Calls `rand::thread_rng` and `Rng::gen_range` with the range `0..n`. The
/// range must not be empty, since `gen_range` panics on an empty range. The
/// contract claims only that the draw lies in the range; two draws may differ.
#[verifier::external_body]
pub(crate) fn random_below(n: usize) -> (r: usize)
    requires
        n > 0,
    ensures
        r < n,
{
    rand::thread_rng().gen_range(0..n)
}

/// The sum of a sequence of weights.
pub open spec fn weight_sum(weights: Seq<u64>) -> int
    decreases weights.len(),
{
    if weights.len() == 0 {
        0
    } else {
        weight_sum(weights.drop_last()) + weights.last()
    }
}

/// Draws an index with a chance in proportion to its weight.
///
/// Calls `WeightedIndex::new`, `rand::thread_rng` and `Distribution::sample`.
/// `new` fails, and its result is unwrapped, if there is no weight or if all
/// weights are zero; it adds the weights up in their own type, so that their
/// sum must fit it. The contract claims only that the draw is an index of
/// a weight; two draws may differ.
#[verifier::external_body]
pub(crate) fn weighted_pick(weights: &Vec<u64>) -> (r: usize)
    requires
        weights@.len() > 0,
        0 < weight_sum(weights@) <= u64::MAX,
    ensures
        r < weights@.len(),
{
    WeightedIndex::new(weights).unwrap().sample(&mut rand::thread_rng())
}

} // verus!

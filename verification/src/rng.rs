//! Trusted randomness primitives, each a thin wrapper around one function of
//! the `rand` crate. Only what holds of every possible outcome is stated.

use vstd::prelude::*;

verus! {

/// The sum of a sequence of weights.
pub open spec fn weight_sum(s: Seq<u32>) -> int
    decreases s.len(),
{
    if s.len() == 0 {
        0
    } else {
        weight_sum(s.drop_last()) + s.last()
    }
}

/// Relies on rand::Rng::random_range over `0..n`: the sample lies in the
/// range, which must not be empty.
#[verifier::external_body]
pub(crate) fn rand_below(n: usize) -> (r: usize)
    requires
        n >= 1,
    ensures
        r < n,
{
    rand::Rng::random_range(&mut rand::rng(), 0..n)
}

/// Relies on rand::seq::index::sample: exactly `k` distinct indices sampled
/// from `0..n` without replacement, in random order.
#[verifier::external_body]
pub(crate) fn sample_indices(n: usize, k: usize) -> (r: Vec<usize>)
    requires
        k <= n,
    ensures
        r@.len() == k,
        forall|i: int| 0 <= i < r@.len() ==> (#[trigger] r@[i]) < n,
        forall|i: int, j: int| 0 <= i < j < r@.len() ==> r@[i] != r@[j],
{
    rand::seq::index::sample(&mut rand::rng(), n, k).into_vec()
}

/// Relies on rand::distr::weighted::WeightedIndex: samples a valid index
/// with probability proportional to its weight, so an index with weight zero
/// is never returned. Building the distribution fails only on an empty list,
/// an all-zero total or an overflowing total, all excluded here.
#[verifier::external_body]
pub(crate) fn choose_weighted_index(weights: &Vec<u32>) -> (r: usize)
    requires
        weights@.len() >= 1,
        exists|i: int| 0 <= i < weights@.len() && weights@[i] > 0,
        weight_sum(weights@) <= u32::MAX,
    ensures
        r < weights@.len(),
        weights@[r as int] > 0,
{
    let dist = rand::distr::weighted::WeightedIndex::new(weights.iter())
        .expect("the weights are non-empty, non-negative and sum without overflow");
    rand::distr::Distribution::sample(&dist, &mut rand::rng())
}

} // verus!

//! The random draws that the sampler makes.
use rand::distributions::{Distribution, WeightedIndex};
use rand::rngs::SmallRng;
use rand::{Rng, SeedableRng};
use vstd::prelude::*;

verus! {

/// `rand::rngs::SmallRng`, the generator that one turn of the sampler draws
/// from. Nothing is said of what it holds.
#[verifier::external_type_specification]
#[verifier::external_body]
pub struct ExSmallRng(SmallRng);

/// `SmallRng::from_rng` on `rand::thread_rng()`: a generator of its own,
/// seeded from that of the calling thread. Nothing is said of the draws it
/// will give.
#[verifier::external_body]
pub(crate) fn new_rng() -> SmallRng {
    SmallRng::from_rng(rand::thread_rng()).unwrap()
}

/// The sum of some weights.
pub open spec fn weights_sum(weights: Seq<u64>) -> nat
    decreases weights.len(),
{
    if weights.len() == 0 {
        0
    } else {
        weights_sum(weights.drop_last()) + weights.last() as nat
    }
}

/// `WeightedIndex::new` on the weights, then `sample` on the generator: the
/// index of one of the weights, and of one that is not zero. `new` fails on
/// no weights and on a sum of zero, and adds the weights up in their own
/// type; so there is a weight, and the sum is positive and fits.
#[verifier::external_body]
pub(crate) fn random_weight(rng: &mut SmallRng, weights: &Vec<u64>) -> (r: usize)
    requires
        weights@.len() > 0,
        0 < weights_sum(weights@) <= u64::MAX,
    ensures
        r < weights@.len(),
        weights@[r as int] > 0,
{
    let dist = WeightedIndex::new(weights).unwrap();
    dist.sample(rng)
}

/// `Rng::gen_range` over `0..n`: some number below `n`. The call panics on
/// an empty range, so `n` is positive.
#[verifier::external_body]
pub(crate) fn random_below(rng: &mut SmallRng, n: u64) -> (r: u64)
    requires
        n > 0,
    ensures
        r < n,
{
    rng.gen_range(0..n)
}

} // verus!

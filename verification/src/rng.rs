//! The random number generator of the game (`rand_pcg::Pcg64` driven through
//! `rand::Rng`). Every draw depends on the generator's hidden state, so these
//! items state only what holds of every outcome.

use rand::seq::SliceRandom;
use rand::Rng;
use rand::SeedableRng;
use rand_pcg::Pcg64;
use vstd::prelude::*;

verus! {

/// The PCG generator of `rand_pcg`; its state is not visible to proofs.
#[verifier::external_type_specification]
#[verifier::external_body]
pub struct ExPcg64(Pcg64);

/// `rand_core::SeedableRng::seed_from_u64` for `Pcg64`. The generator's state is
/// a function of the seed, but nothing about it is stated here.
#[verifier::external_body]
pub fn pcg_from_seed(seed: u64) -> Pcg64 {
    Pcg64::seed_from_u64(seed)
}

/// `rand_core::SeedableRng::from_entropy` for `Pcg64`: a generator seeded from
/// the operating system. Nothing is stated of it.
#[verifier::external_body]
pub fn pcg_from_entropy() -> Pcg64 {
    Pcg64::from_entropy()
}

/// `rand::Rng::gen_range` at `i32`: a value in `[low, high)`. The source asserts
/// `low < high`, hence the `requires`.
#[verifier::external_body]
pub fn gen_range_i32(rng: &mut Pcg64, low: i32, high: i32) -> (r: i32)
    requires
        low < high,
    ensures
        low <= r < high,
{
    rng.gen_range(low, high)
}

/// `rand::Rng::gen_range` at `u32`: a value in `[low, high)`.
#[verifier::external_body]
pub fn gen_range_u32(rng: &mut Pcg64, low: u32, high: u32) -> (r: u32)
    requires
        low < high,
    ensures
        low <= r < high,
{
    rng.gen_range(low, high)
}

/// `rand::Rng::gen_range` at `usize`: a value in `[low, high)`.
#[verifier::external_body]
pub fn gen_range_usize(rng: &mut Pcg64, low: usize, high: usize) -> (r: usize)
    requires
        low < high,
    ensures
        low <= r < high,
{
    rng.gen_range(low, high)
}

/// `rand::Rng::gen_ratio`: `true` with probability `numerator / denominator`.
/// Its documentation guarantees `false` for a zero numerator and `true` when
/// numerator and denominator are equal; it panics for a zero denominator or a
/// numerator above the denominator.
#[verifier::external_body]
pub fn gen_ratio(rng: &mut Pcg64, numerator: u32, denominator: u32) -> (r: bool)
    requires
        0 < denominator,
        numerator <= denominator,
    ensures
        numerator == 0 ==> !r,
        numerator == denominator ==> r,
{
    rng.gen_ratio(numerator, denominator)
}

/// `rand::seq::SliceRandom::choose`: one element of the slice, `None` exactly
/// when the slice is empty. Which element is left to chance.
#[verifier::external_body]
pub fn choose_item<T: Copy>(items: &[T], rng: &mut Pcg64) -> (r: Option<T>)
    ensures
        r is None <==> items@.len() == 0,
        r matches Some(v) ==> items@.contains(v),
{
    items.choose(rng).copied()
}

/// `rand::seq::SliceRandom::shuffle`: a permutation of the elements (the source
/// only swaps elements of the slice). Which permutation is left to chance.
#[verifier::external_body]
pub fn shuffle<T>(items: &mut Vec<T>, rng: &mut Pcg64)
    ensures
        final(items)@.to_multiset() == old(items)@.to_multiset(),
        final(items)@.len() == old(items)@.len(),
{
    items.as_mut_slice().shuffle(rng)
}

/// The sum of the weights.
pub open spec fn weight_total(weights: Seq<u32>) -> int
    decreases weights.len(),
{
    if weights.len() == 0 {
        0
    } else {
        weight_total(weights.drop_last()) + weights.last()
    }
}

/// `rand::seq::SliceRandom::choose_weighted` over the weights themselves:
/// the index of one weight, never of a zero one (its `WeightedIndex` samples
/// below the running total). Which index is left to chance. The source fails
/// when every weight is zero and adds the weights up in `u32`, hence the
/// `requires`.
#[verifier::external_body]
pub fn choose_weighted_index(weights: &Vec<u32>, rng: &mut Pcg64) -> (r: usize)
    requires
        exists|i: int| 0 <= i < weights@.len() && weights@[i] > 0,
        weight_total(weights@) <= u32::MAX,
    ensures
        r < weights@.len(),
        weights@[r as int] > 0,
{
    let indexed: Vec<(usize, u32)> = weights.iter().copied().enumerate().collect();
    indexed.choose_weighted(rng, |p| p.1).unwrap().0
}

} // verus!

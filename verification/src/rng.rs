//! Randomness, supplied by the `rand` crate behind trusted wrappers.
//!
//! The engine never relies on which value comes back, only on the stated
//! range facts; everything downstream of a draw is verified for every
//! possible outcome.

use vstd::prelude::*;

use rand::distributions::Distribution;
use rand::seq::SliceRandom;

verus! {

/// Relies on `rand::distributions::WeightedIndex::{new, sample}`:
/// `new` succeeds for two unsigned weights whose sum is positive and does
/// not overflow, and `sample` returns an index of the weight list.
#[verifier::external_body]
pub(crate) fn sample_weighted_pair(weight_a: u8, weight_b: u8) -> (r: usize)
    requires
        weight_a >= 1,
        weight_a as int + weight_b as int <= 255,
    ensures
        r < 2,
{
    let mut rng = rand::thread_rng();
    let dist = rand::distributions::WeightedIndex::new([weight_a, weight_b]).unwrap();
    dist.sample(&mut rng)
}

/// Relies on `rand::seq::SliceRandom::choose`: the result is `None` exactly
/// when the slice is empty, and otherwise one of the slice's elements.
#[verifier::external_body]
pub(crate) fn choose_slot(slots: &Vec<(usize, usize)>) -> (r: Option<(usize, usize)>)
    ensures
        r is Some <==> slots@.len() > 0,
        r matches Some(rc) ==> exists|i: int| 0 <= i < slots@.len() && slots@[i] == rc,
{
    let mut rng = rand::thread_rng();
    slots.choose(&mut rng).copied()
}

} // verus!

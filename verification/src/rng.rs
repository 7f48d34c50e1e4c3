//! Random numbers, drawn from the `rand` crate. What is stated of them holds of every
//! outcome.

use vstd::prelude::*;
use rand::distributions::{IndependentSample, Weighted, WeightedChoice};
use rand::{Rng, ThreadRng};

verus! {

/// `rand::ThreadRng`, the random number generator of the current thread. Nothing inside
/// it is visible here.
#[verifier::external_type_specification]
#[verifier::external_body]
pub struct ExThreadRng(ThreadRng);

/// The sum of a list of weights.
pub open spec fn total_weight(weights: Seq<u32>) -> int
    decreases weights.len(),
{
    if weights.len() == 0 {
        0
    } else {
        total_weight(weights.drop_last()) + weights.last()
    }
}

/// `rand::thread_rng`: hands out the generator of the current thread. Nothing is
/// claimed of the generator.
pub assume_specification[ rand::thread_rng ]() -> ThreadRng;

/// `Rng::gen_range` on `i32`: some number from `low` up to, but not including, `high`.
/// The call panics unless `low < high`.
#[verifier::external_body]
pub(crate) fn gen_range(rng: &mut ThreadRng, low: i32, high: i32) -> (value: i32)
    requires
        low < high,
    ensures
        low <= value < high,
{
    rng.gen_range(low, high)
}

/// `Rng::gen` on `bool`: a coin flip. Nothing is claimed of the outcome.
#[verifier::external_body]
pub(crate) fn gen_bool(rng: &mut ThreadRng) -> bool {
    rng.gen()
}

/// `Rng::choose`: some element of `values`, or nothing if there is none to choose from.
#[verifier::external_body]
pub(crate) fn pick<'a, T>(rng: &mut ThreadRng, values: &'a [T]) -> (picked: Option<&'a T>)
    ensures
        values@.len() == 0 ==> picked is None,
        values@.len() > 0 ==> picked is Some && values@.contains(*picked->0),
{
    rng.choose(values)
}

/// `WeightedChoice::new` followed by `ind_sample`, on items that are the positions of
/// their weights: the position of some weight. The sample is the first item whose
/// running total exceeds a number drawn below the grand total, so a position whose weight
/// is zero never comes out. `WeightedChoice::new` panics on an empty list and on a total
/// weight that is zero or exceeds `u32::MAX`.
#[verifier::external_body]
pub(crate) fn weighted_index(rng: &mut ThreadRng, weights: &Vec<u32>) -> (index: usize)
    requires
        weights@.len() > 0,
        0 < total_weight(weights@) <= u32::MAX,
    ensures
        index < weights@.len(),
        weights@[index as int] > 0,
{
    let mut items: Vec<Weighted<usize>> = Vec::with_capacity(weights.len());
    for item in 0..weights.len() {
        items.push(Weighted { weight: weights[item], item });
    }
    WeightedChoice::new(&mut items).ind_sample(rng)
}

} // verus!

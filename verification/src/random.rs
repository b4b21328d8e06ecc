//! The random choices of the obfuscator, drawn from a generator of the crate rand.

use rand::rngs::StdRng;
use rand::Rng;
use vstd::prelude::*;

verus! {

/// `rand::rngs::StdRng`, the generator that the random choices are drawn from.
#[verifier::external_type_specification]
#[verifier::external_body]
pub struct ExStdRng(StdRng);

/// `Rng::gen_range` of rand on the range `0..bound`: some position below `bound`.
/// rand panics on an empty range.
#[verifier::external_body]
pub(crate) fn random_index(rng: &mut StdRng, bound: usize) -> (index: usize)
    requires
        0 < bound,
    ensures
        index < bound,
{
    rng.gen_range(0..bound)
}

/// `Rng::gen_range` of rand on the range `low..high`: some integer from `low` up to,
/// but not including, `high`. rand panics on an empty range.
#[verifier::external_body]
pub(crate) fn random_constant(rng: &mut StdRng, low: i32, high: i32) -> (value: i32)
    requires
        low < high,
    ensures
        low <= value < high,
{
    rng.gen_range(low..high)
}

/// `Rng::gen_ratio` of rand: true with the chance of `numerator` in `denominator`,
/// so always where the two are equal and never where `numerator` is 0. rand panics
/// on a zero denominator and on a numerator above the denominator.
#[verifier::external_body]
pub(crate) fn random_chance(rng: &mut StdRng, numerator: u32, denominator: u32) -> (hit: bool)
    requires
        0 < denominator,
        numerator <= denominator,
    ensures
        numerator == denominator ==> hit,
        numerator == 0 ==> !hit,
{
    rng.gen_ratio(numerator, denominator)
}

} // verus!

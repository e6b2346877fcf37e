//! The random draws the operators make, each behind a contract that holds of
//! every outcome.

use vstd::prelude::*;
use rand::Rng;

verus! {

/// `StdRng` of the rand crate, the generator every draw is taken from.
/// Nothing is known of its state.
#[verifier::external_type_specification]
#[verifier::external_body]
pub struct ExStdRng(rand::rngs::StdRng);

/// `Rng::random_range` of the rand crate on the half-open range `low..high`
/// of `i32`. Trusted: the call panics on an empty range, and otherwise
/// returns a value of the range.
#[verifier::external_body]
pub(crate) fn random_i32(rng: &mut rand::rngs::StdRng, low: i32, high: i32) -> (r: i32)
    requires
        low < high,
    ensures
        low <= r < high,
{
    rng.random_range(low..high)
}

/// `Rng::random_range` of the rand crate on the half-open range `low..high`
/// of `usize`. Trusted: the call panics on an empty range, and otherwise
/// returns a value of the range.
#[verifier::external_body]
pub(crate) fn random_usize(rng: &mut rand::rngs::StdRng, low: usize, high: usize) -> (r: usize)
    requires
        low < high,
    ensures
        low <= r < high,
{
    rng.random_range(low..high)
}

/// `Rng::random_ratio` of the rand crate: a coin that shows `true` with
/// probability `numerator / denominator`. Trusted: the call panics on a zero
/// denominator or a ratio above one; a ratio of one always gives `true` and a
/// ratio of zero always gives `false`.
#[verifier::external_body]
pub(crate) fn random_ratio(rng: &mut rand::rngs::StdRng, numerator: u32, denominator: u32) -> (r: bool)
    requires
        denominator > 0,
        numerator <= denominator,
    ensures
        numerator == denominator ==> r,
        numerator == 0 ==> !r,
{
    rng.random_ratio(numerator, denominator)
}

} // verus!

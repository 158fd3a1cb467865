use rand::Rng;
use vstd::prelude::*;

verus! {

/// Draws a number from `0..bound` with `rand::Rng::random_range` on the thread-local
/// generator `rand::rng()`.
///
/// Which number comes out is left to chance; the contract claims only that it lies in the
/// range. `random_range` panics on an empty range, so the range must not be empty.
#[verifier::external_body]
pub(crate) fn random_below(bound: usize) -> (r: usize)
    requires
        bound > 0,
    ensures
        r < bound,
{
    rand::rng().random_range(0..bound)
}

/// Draws a `bool` with `rand::Rng::random_ratio` on the thread-local generator `rand::rng()`:
/// `true` with probability `numerator / denominator`.
///
/// The contract claims only what rand documents as certain: a ratio of 0 never gives `true`
/// and a ratio of 1 always does. `random_ratio` panics when `denominator == 0` or
/// `numerator > denominator`.
#[verifier::external_body]
pub(crate) fn random_ratio(numerator: u32, denominator: u32) -> (b: bool)
    requires
        0 < denominator,
        numerator <= denominator,
    ensures
        numerator == 0 ==> !b,
        numerator == denominator ==> b,
{
    rand::rng().random_ratio(numerator, denominator)
}

} // verus!

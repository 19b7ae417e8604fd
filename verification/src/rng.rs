//! Random draws, the only source of chance in the solver.
use vstd::prelude::*;
use rand::Rng;
use rand::rngs::StdRng;

verus! {

/// The standard random number generator of `rand`.
#[verifier::external_type_specification]
#[verifier::external_body]
pub struct ExStdRng(rand::rngs::StdRng);

/// A value drawn uniformly from `low..=high`.
///
/// Trusted: calls `rand::Rng::random_range` with the inclusive range
/// `low..=high`, which panics only on an empty range and otherwise returns a
/// value of the range. Which value comes back depends on the generator's
/// state and is not stated.
#[verifier::external_body]
pub(crate) fn random_in_range(rng: &mut StdRng, low: i64, high: i64) -> (r: i64)
    requires
        low <= high,
    ensures
        low <= r <= high,
{
    rng.random_range(low..=high)
}

/// An index drawn uniformly from `0..len`.
///
/// Trusted: calls `rand::Rng::random_range` with the half-open range
/// `0..len`, which panics only on an empty range and otherwise returns a
/// value of the range. Which value comes back depends on the generator's
/// state and is not stated.
#[verifier::external_body]
pub(crate) fn random_index(rng: &mut StdRng, len: usize) -> (r: usize)
    requires
        len > 0,
    ensures
        r < len,
{
    rng.random_range(0..len)
}

} // verus!

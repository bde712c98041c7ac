//! The engine-owned pseudo-random source used for tie-breaking: a seedable
//! generator from the `rand` crate, reached through trusted wrappers. No
//! contract promises anything about an outcome; every caller handles both
//! results of a coin.

use vstd::prelude::*;

verus! {

/// Declares `rand`'s standard seedable generator so it can stand in a field.
#[verifier::external_type_specification]
#[verifier::external_body]
pub struct ExStdRng(rand::rngs::StdRng);

/// Relies on rand::SeedableRng::seed_from_u64: builds a generator from a
/// plain seed; it never panics.
#[verifier::external_body]
pub(crate) fn rng_from_seed(seed: u64) -> (r: rand::rngs::StdRng) {
    <rand::rngs::StdRng as rand::SeedableRng>::seed_from_u64(seed)
}

/// Relies on rand::Rng::gen::<bool>: a coin flip; nothing is promised of
/// the outcome.
#[verifier::external_body]
pub(crate) fn coin(rng: &mut rand::rngs::StdRng) -> (r: bool) {
    rand::Rng::gen::<bool>(rng)
}

/// Relies on rand::random::<u64>: an entropy-derived seed; nothing is
/// promised of the value.
#[verifier::external_body]
pub(crate) fn entropy_seed() -> (r: u64) {
    rand::random::<u64>()
}

} // verus!

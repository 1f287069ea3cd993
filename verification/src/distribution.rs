//! The interface through which a process draws the delay to its next event
//! from a probability distribution.

use rand::rngs::StdRng;
use rand::SeedableRng;
use vstd::prelude::*;

verus! {

/// The seeded generator of `rand`. Nothing is known of what it holds.
#[verifier::external_type_specification]
#[verifier::external_body]
pub struct ExStdRng(StdRng);

/// A distribution of delays, in ticks. A draw advances the generator that it
/// is given; nothing is promised of the delay that comes back.
pub trait Distribution {
    /// Draws the delay to the next event.
    fn sample(&self, rng: &mut StdRng) -> u64;
}

/// Calls `StdRng::seed_from_u64` of `rand`, which expands the seed into the
/// key of a fresh generator. Nothing is claimed of the generator.
#[verifier::external_body]
pub(crate) fn seeded_rng(seed: u64) -> StdRng {
    StdRng::seed_from_u64(seed)
}

} // verus!

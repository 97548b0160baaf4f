//! The randomness the split heuristic draws on, behind trusted items.

use vstd::prelude::*;
use rand_core::RngCore;
use rand_core::SeedableRng;

verus! {

/// The seedable random source injected into tree construction, so that the
/// randomized split heuristic is reproducible under a fixed seed.
#[verifier::external_type_specification]
#[verifier::external_body]
pub struct ExChaCha8Rng(rand_chacha::ChaCha8Rng);

/// Relies on rand::random to draw one value from the standard distribution.
/// Nothing can be promised of a random value.
pub assume_specification<T>[ rand::random::<T> ]() -> (r: T)
    where
        rand::distributions::Standard: rand::distributions::Distribution<T>,
;

/// Relies on rand_core::SeedableRng::seed_from_u64 to build a ChaCha8 random
/// source from a 64-bit seed.
#[verifier::external_body]
pub fn chacha8_from_seed(seed: u64) -> rand_chacha::ChaCha8Rng {
    rand_chacha::ChaCha8Rng::seed_from_u64(seed)
}

/// Relies on rand_core::RngCore::next_u32 to draw the next 32-bit value of a
/// ChaCha8 stream. Nothing can be promised of the value drawn.
#[verifier::external_body]
pub fn chacha8_next_u32(rng: &mut rand_chacha::ChaCha8Rng) -> u32 {
    rng.next_u32()
}

} // verus!

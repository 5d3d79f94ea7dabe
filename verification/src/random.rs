//! Trusted declarations for the caller-supplied random number generator of
//! the rand crate. A generator value is opaque; nothing is promised of the
//! values it yields, so everything downstream holds for every outcome.

use vstd::prelude::*;

verus! {

#[verifier::external_type_specification]
#[verifier::external_body]
pub struct ExStdRng(rand::rngs::StdRng);

/// Relies on rand::RngCore::next_u32 for StdRng: yields the generator's next
/// 32-bit value. Nothing can be promised of a random draw.
#[verifier::external_body]
pub fn next_u32(rng: &mut rand::rngs::StdRng) -> u32 {
    rand::RngCore::next_u32(rng)
}

} // verus!

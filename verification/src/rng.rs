//! The random-byte source the protocol consumes, backed by the `rand`
//! crate's thread-local generator.

use vstd::prelude::*;

verus! {

#[verifier::external_type_specification]
#[verifier::external_body]
pub struct ExThreadRng(rand::rngs::ThreadRng);

/// Relies on rand's `Rng::gen::<u64>`: draws the next value from the
/// thread-local generator.  Nothing is promised of a random value.
#[verifier::external_body]
pub(crate) fn random_u64(rng: &mut rand::rngs::ThreadRng) -> u64 {
    rand::Rng::gen(rng)
}

} // verus!

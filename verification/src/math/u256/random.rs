//! Random identifiers.

use super::U256;
use rand::RngCore;
use vstd::prelude::*;

verus! {

/// `rand::rng().fill_bytes` of the `rand` crate: thirty-two bytes from the
/// thread-local generator. Nothing is known of them.
#[verifier::external_body]
fn random_bytes() -> [u8; 32] {
    let mut bytes = [0u8; 32];
    rand::rng().fill_bytes(&mut bytes);
    bytes
}

impl U256 {
    /// An identifier drawn from the thread-local generator.
    pub fn generate_random() -> U256 {
        U256(random_bytes())
    }
}

} // verus!

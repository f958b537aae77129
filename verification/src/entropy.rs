//! Operating-system randomness through an outside implementation.

use vstd::prelude::*;

verus! {

/// Relies on rand's OsRng: 32 bytes of operating-system randomness;
/// nothing is promised of the value.
#[verifier::external_body]
pub(crate) fn random_bytes32() -> (r: [u8; 32]) {
    let mut b = [0u8; 32];
    rand::RngCore::fill_bytes(&mut rand::rngs::OsRng, &mut b);
    b
}

} // verus!

//! Hashing through an outside implementation.

use vstd::prelude::*;

verus! {

/// The digest the outside hash implementation assigns to a byte
/// string: a function of the bytes alone, identical on every machine.
pub uninterp spec fn blake3_of(data: Seq<u8>) -> Seq<u8>;

/// Relies on blake3::hash: a 32-byte digest of the input bytes,
/// depending on the bytes alone.
#[verifier::external_body]
pub(crate) fn blake3_digest(data: &Vec<u8>) -> (r: [u8; 32])
    ensures
        r@ == blake3_of(data@),
{
    *blake3::hash(data.as_slice()).as_bytes()
}

} // verus!

//! Base58 text encoding through an outside implementation.

use vstd::prelude::*;

verus! {

/// The base58 text the outside encoder assigns to a byte string: a
/// function of the bytes alone.
pub uninterp spec fn base58_of(data: Seq<u8>) -> Seq<char>;

/// Relies on bs58::encode: the base58 text of the bytes, depending on
/// the bytes alone; empty input encodes to empty text.
#[verifier::external_body]
pub(crate) fn base58_string(data: &Vec<u8>) -> (r: String)
    ensures
        r@ == base58_of(data@),
        data@.len() == 0 ==> r@.len() == 0,
{
    bs58::encode(data.as_slice()).into_string()
}

} // verus!

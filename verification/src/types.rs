//! Plain value types that cross the host boundary.

use vstd::prelude::*;

verus! {

/// A contract identifier: 32 opaque bytes.
#[derive(Debug, Clone, Copy, PartialEq, Eq)]
pub struct ContractId {
    pub bytes: [u8; 32],
}

/// A commitment-tree leaf or root: 32 opaque bytes.
#[derive(Debug, Clone, Copy, PartialEq, Eq)]
pub struct MerkleNode {
    pub bytes: [u8; 32],
}

impl ContractId {
    pub fn new(bytes: [u8; 32]) -> (r: ContractId)
        ensures
            r.bytes == bytes,
    {
        ContractId { bytes }
    }
}

impl MerkleNode {
    pub fn new(bytes: [u8; 32]) -> (r: MerkleNode)
        ensures
            r.bytes == bytes,
    {
        MerkleNode { bytes }
    }
}

/// Byte-wise equality of two 32-byte values.
#[verifier::loop_isolation(false)]
pub fn bytes32_eq(a: &[u8; 32], b: &[u8; 32]) -> (r: bool)
    ensures
        r <==> a@ == b@,
{
    let mut i: usize = 0;
    while i < 32
        invariant
            0 <= i <= 32,
            forall|j: int| 0 <= j < i ==> a@[j] == b@[j],
        decreases 32 - i,
    {
        if a[i] != b[i] {
            return false;
        }
        i += 1;
    }
    proof {
        assert(a@ =~= b@);
    }
    true
}

/// Whether two contract identifiers name the same contract.
pub fn id_eq(a: &ContractId, b: &ContractId) -> (r: bool)
    ensures
        r <==> a.bytes@ == b.bytes@,
{
    bytes32_eq(&a.bytes, &b.bytes)
}

/// The bytes of a 32-byte value as a vector.
#[verifier::loop_isolation(false)]
pub fn bytes32_to_vec(a: &[u8; 32]) -> (r: Vec<u8>)
    ensures
        r@ == a@,
{
    let mut out: Vec<u8> = Vec::new();
    let mut i: usize = 0;
    while i < 32
        invariant
            0 <= i <= 32,
            out@ =~= a@.take(i as int),
        decreases 32 - i,
    {
        out.push(a[i]);
        proof {
            assert(out@ =~= a@.take(i as int + 1));
        }
        i += 1;
    }
    proof {
        assert(a@.take(32) =~= a@);
    }
    out
}

/// An owned copy of a byte vector.
#[verifier::loop_isolation(false)]
pub fn copy_bytes(a: &Vec<u8>) -> (r: Vec<u8>)
    ensures
        r@ == a@,
{
    let mut out: Vec<u8> = Vec::new();
    let mut i: usize = 0;
    while i < a.len()
        invariant
            0 <= i <= a.len(),
            out@ =~= a@.take(i as int),
        decreases a.len() - i,
    {
        out.push(*vstd::std_specs::vec::vec_index(a, i));
        proof {
            assert(out@ =~= a@.take(i as int + 1));
        }
        i += 1;
    }
    proof {
        assert(a@.take(a@.len() as int) =~= a@);
    }
    out
}

/// The bytes of `a` from `from` (inclusive) to `to` (exclusive).
#[verifier::loop_isolation(false)]
pub fn copy_range(a: &Vec<u8>, from: usize, to: usize) -> (r: Vec<u8>)
    requires
        from <= to <= a@.len(),
    ensures
        r@ == a@.subrange(from as int, to as int),
{
    let mut out: Vec<u8> = Vec::new();
    let mut i: usize = from;
    while i < to
        invariant
            from <= i <= to,
            out@ =~= a@.subrange(from as int, i as int),
        decreases to - i,
    {
        out.push(*vstd::std_specs::vec::vec_index(a, i));
        proof {
            assert(out@ =~= a@.subrange(from as int, i as int + 1));
        }
        i += 1;
    }
    out
}

/// Equality of two byte vectors.
#[verifier::loop_isolation(false)]
pub fn bytes_eq(a: &Vec<u8>, b: &Vec<u8>) -> (r: bool)
    ensures
        r <==> a@ == b@,
{
    if a.len() != b.len() {
        return false;
    }
    let mut i: usize = 0;
    while i < a.len()
        invariant
            0 <= i <= a.len(),
            forall|j: int| 0 <= j < i ==> a@[j] == b@[j],
        decreases a.len() - i,
    {
        if *vstd::std_specs::vec::vec_index(a, i) != *vstd::std_specs::vec::vec_index(b, i) {
            return false;
        }
        i += 1;
    }
    proof {
        assert(a@ =~= b@);
    }
    true
}

} // verus!

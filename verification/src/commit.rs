//! The append-only commitment tree: an ordered list of 32-byte leaves
//! whose root is a chained digest.  Every root the tree has ever
//! produced stays valid: the host records each intermediate root when
//! leaves are appended.

use vstd::prelude::*;

use crate::digest::{blake3_digest, blake3_of};
use crate::types::MerkleNode;

verus! {

/// The root of a commitment tree holding the given leaves: the digest
/// chain seeded with the digest of the empty string.
pub open spec fn root_of(leaves: Seq<Seq<u8>>) -> Seq<u8>
    decreases leaves.len(),
{
    if leaves.len() == 0 {
        blake3_of(Seq::empty())
    } else {
        blake3_of(root_of(leaves.drop_last()) + leaves.last())
    }
}

/// The roots produced one by one while appending `coins` to a tree
/// already holding `base`.
pub open spec fn chain_roots(base: Seq<Seq<u8>>, coins: Seq<Seq<u8>>) -> Seq<Seq<u8>>
    decreases coins.len(),
{
    if coins.len() == 0 {
        Seq::empty()
    } else {
        chain_roots(base, coins.drop_last()).push(root_of(base + coins))
    }
}

/// An append-only commitment tree.
#[derive(Debug, Clone, PartialEq)]
pub struct CommitmentTree {
    pub leaves: Vec<MerkleNode>,
}

impl CommitmentTree {
    /// The empty tree.
    pub fn new() -> (r: CommitmentTree)
        ensures
            r.leaves@ == Seq::<MerkleNode>::empty(),
    {
        CommitmentTree { leaves: Vec::new() }
    }

    /// Append one leaf; nothing already in the tree moves.
    pub fn append(&mut self, n: MerkleNode)
        ensures
            final(self).leaves@ == old(self).leaves@.push(n),
    {
        self.leaves.push(n);
    }

    /// The current root.
    #[verifier::loop_isolation(false)]
    pub fn root(&self) -> (r: [u8; 32])
        ensures
            r@ == root_of(crate::codec::nodes_bytes(self.leaves@)),
    {
        let ghost lb = crate::codec::nodes_bytes(self.leaves@);
        let empty: Vec<u8> = Vec::new();
        let mut acc = blake3_digest(&empty);
        proof {
            assert(empty@ =~= Seq::<u8>::empty());
            assert(lb.take(0) =~= Seq::<Seq<u8>>::empty());
        }
        let mut i: usize = 0;
        while i < self.leaves.len()
            invariant
                0 <= i <= self.leaves@.len(),
                acc@ == root_of(lb.take(i as int)),
            decreases self.leaves.len() - i,
        {
            let n = vstd::std_specs::vec::vec_index(&self.leaves, i);
            acc = append_root(&acc, n);
            proof {
                assert(lb.take(i as int + 1).drop_last() =~= lb.take(i as int));
                assert(lb.take(i as int + 1).last() == self.leaves@[i as int].bytes@);
            }
            i += 1;
        }
        proof {
            assert(lb.take(lb.len() as int) =~= lb);
        }
        acc
    }
}

/// The root after appending one more leaf, from the previous root: the
/// next link of the digest chain.
#[verifier::loop_isolation(false)]
pub fn append_root(prev: &[u8; 32], leaf: &MerkleNode) -> (r: [u8; 32])
    ensures
        r@ == blake3_of(prev@ + leaf.bytes@),
{
    let mut buf: Vec<u8> = Vec::new();
    let mut i: usize = 0;
    while i < 32
        invariant
            0 <= i <= 32,
            buf@ == prev@.take(i as int),
        decreases 32 - i,
    {
        buf.push(prev[i]);
        proof {
            assert(buf@ =~= prev@.take(i as int + 1));
        }
        i += 1;
    }
    proof {
        assert(prev@.take(32) =~= prev@);
    }
    crate::codec::write_node(&mut buf, leaf);
    blake3_digest(&buf)
}

/// Law: appending extends the digest chain: the root after appending
/// `leaf` is the digest of the previous root followed by the leaf.
pub proof fn lemma_root_chain(leaves: Seq<Seq<u8>>, leaf: Seq<u8>)
    ensures
        root_of(leaves.push(leaf)) == blake3_of(root_of(leaves) + leaf),
{
    assert(leaves.push(leaf).drop_last() =~= leaves);
    assert(leaves.push(leaf).last() == leaf);
}

} // verus!

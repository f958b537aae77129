//! Block-production metadata and the leadership proof.
//!
//! Proof and signature construction are out-of-scope collaborators of
//! this engine; here they are modeled exactly at their interface as
//! digest commitments: a proof (or signature) is valid for a verifying
//! key (or public key) and a message precisely when its bytes equal the
//! digest binding the two.  The check is deterministic and total, which
//! is all the transition protocol relies on.

use vstd::prelude::*;

use crate::codec::{enc_bytes, enc_nodes, nodes_bytes, write_bytes, write_nodes};
use crate::digest::{blake3_digest, blake3_of};
use crate::entropy::random_bytes32;
use crate::errors::ContractError;
use crate::types::{bytes32_to_vec, bytes_eq, MerkleNode};

verus! {

/// A transaction or block signature, as bytes.
#[derive(Debug, Clone, PartialEq)]
pub struct Signature {
    pub bytes: Vec<u8>,
}

/// A block owner's address: 32 opaque bytes.
#[derive(Debug, Clone, Copy, PartialEq)]
pub struct Address {
    pub bytes: [u8; 32],
}

/// A signing public key: 32 opaque bytes.
#[derive(Debug, Clone, Copy, PartialEq)]
pub struct PublicKey {
    pub bytes: [u8; 32],
}

/// A signing keypair; the public key is the digest of the secret.
#[derive(Debug, Clone, Copy, PartialEq)]
pub struct Keypair {
    pub public: PublicKey,
    pub secret: [u8; 32],
}

/// A consensus participant.
#[derive(Debug, Clone, Copy, PartialEq)]
pub struct Participant {
    pub address: Address,
}

/// A proving key, as bytes; proofs it creates check out against the
/// verifying key with the same bytes.
#[derive(Debug, Clone, PartialEq)]
pub struct ProvingKey {
    pub key: Vec<u8>,
}

/// A verifying key, as bytes.
#[derive(Debug, Clone, PartialEq)]
pub struct VerifyingKey {
    pub key: Vec<u8>,
}

/// The coin a leadership proof is built from: its public inputs.
#[derive(Debug, Clone, PartialEq)]
pub struct LeadCoin {
    pub public_inputs: Vec<MerkleNode>,
}

/// The proof bytes that attest `msg` under the key `key`: the digest
/// binding the two.
pub open spec fn lead_proof_attests(key: Seq<u8>, msg: Seq<u8>) -> Seq<u8> {
    blake3_of(enc_bytes(key) + msg)
}

/// The signature bytes that attest `msg` under the public key `public`.
pub open spec fn signature_bytes(public: Seq<u8>, msg: Seq<u8>) -> Seq<u8> {
    blake3_of(enc_bytes(public) + msg)
}

/// Wrapper over the leadership proof.
#[derive(Debug, Clone, PartialEq)]
pub struct LeadProof {
    /// Leadership proof bytes.
    pub proof: Vec<u8>,
}

impl LeadProof {
    /// Create the leadership proof for `coin` under `pk`.
    pub fn new(pk: &ProvingKey, coin: &LeadCoin) -> (r: LeadProof)
        requires
            pk.key@.len() <= u32::MAX,
            coin.public_inputs@.len() <= u32::MAX,
        ensures
            r.proof@ == lead_proof_attests(
                pk.key@,
                enc_nodes(nodes_bytes(coin.public_inputs@)),
            ),
    {
        let mut msg: Vec<u8> = Vec::new();
        write_bytes(&mut msg, &pk.key);
        write_nodes(&mut msg, &coin.public_inputs);
        proof {
            assert(msg@ =~= enc_bytes(pk.key@) + enc_nodes(nodes_bytes(coin.public_inputs@)));
        }
        let digest = blake3_digest(&msg);
        LeadProof { proof: bytes32_to_vec(&digest) }
    }

    /// Create the proof that attests `msg` under the proving key
    /// `key`; it checks out against the verifying key with the same
    /// bytes.
    pub fn attest_msg(key: &Vec<u8>, msg: &Vec<u8>) -> (r: LeadProof)
        requires
            key@.len() <= u32::MAX,
        ensures
            r.proof@ == lead_proof_attests(key@, msg@),
    {
        let mut buf: Vec<u8> = Vec::new();
        write_bytes(&mut buf, key);
        let mut m = crate::types::copy_bytes(msg);
        buf.append(&mut m);
        proof {
            assert(buf@ =~= enc_bytes(key@) + msg@);
        }
        let digest = blake3_digest(&buf);
        LeadProof { proof: bytes32_to_vec(&digest) }
    }

    /// Check this proof against a verifying key and a message.
    pub fn verify_msg(&self, vk: &VerifyingKey, msg: &Vec<u8>) -> (r: Result<(), ContractError>)
        requires
            vk.key@.len() <= u32::MAX,
        ensures
            r is Ok <==> self.proof@ == lead_proof_attests(vk.key@, msg@),
            r is Err ==> (r matches Err(e) && e == ContractError::InvalidProof),
    {
        let mut buf: Vec<u8> = Vec::new();
        write_bytes(&mut buf, &vk.key);
        let mut m = crate::types::copy_bytes(msg);
        buf.append(&mut m);
        proof {
            assert(buf@ =~= enc_bytes(vk.key@) + msg@);
        }
        let digest = blake3_digest(&buf);
        let want = bytes32_to_vec(&digest);
        if bytes_eq(&self.proof, &want) {
            Ok(())
        } else {
            Err(ContractError::InvalidProof)
        }
    }

    /// Check this proof against a verifying key and the public inputs
    /// it must attest.
    pub fn verify(&self, vk: &VerifyingKey, public_inputs: &Vec<MerkleNode>) -> (r: Result<
        (),
        ContractError,
    >)
        requires
            vk.key@.len() <= u32::MAX,
            public_inputs@.len() <= u32::MAX,
        ensures
            r is Ok <==> self.proof@ == lead_proof_attests(
                vk.key@,
                enc_nodes(nodes_bytes(public_inputs@)),
            ),
            r is Err ==> (r matches Err(e) && e == ContractError::InvalidProof),
    {
        let mut msg: Vec<u8> = Vec::new();
        write_nodes(&mut msg, public_inputs);
        proof {
            assert(msg@ =~= Seq::<u8>::empty() + enc_nodes(nodes_bytes(public_inputs@)));
            assert(Seq::<u8>::empty() + enc_nodes(nodes_bytes(public_inputs@)) =~= enc_nodes(
                nodes_bytes(public_inputs@),
            ));
        }
        self.verify_msg(vk, &msg)
    }
}

/// Sign `msg` under `public`: the digest commitment standing in for
/// the signature scheme.
pub fn sign_message(public: &PublicKey, msg: &Vec<u8>) -> (r: Signature)
    ensures
        r.bytes@ == signature_bytes(public.bytes@, msg@),
{
    let mut buf: Vec<u8> = Vec::new();
    let pk = bytes32_to_vec(&public.bytes);
    write_bytes(&mut buf, &pk);
    let mut m = crate::types::copy_bytes(msg);
    buf.append(&mut m);
    proof {
        assert(buf@ =~= enc_bytes(public.bytes@) + msg@);
    }
    let digest = blake3_digest(&buf);
    Signature { bytes: bytes32_to_vec(&digest) }
}

/// Check `sig` against a public key and a message.
pub fn verify_signature(public: &Vec<u8>, msg: &Vec<u8>, sig: &Signature) -> (r: bool)
    requires
        public@.len() <= u32::MAX,
    ensures
        r <==> sig.bytes@ == signature_bytes(public@, msg@),
{
    let mut buf: Vec<u8> = Vec::new();
    write_bytes(&mut buf, public);
    let mut m = crate::types::copy_bytes(msg);
    buf.append(&mut m);
    proof {
        assert(buf@ =~= enc_bytes(public@) + msg@);
    }
    let digest = blake3_digest(&buf);
    let want = bytes32_to_vec(&digest);
    bytes_eq(&sig.bytes, &want)
}

impl Keypair {
    /// A fresh keypair from operating-system randomness.
    pub fn random() -> (r: Keypair)
        ensures
            r.public.bytes@ == blake3_of(r.secret@),
    {
        let secret = random_bytes32();
        let sv = bytes32_to_vec(&secret);
        let public = blake3_digest(&sv);
        Keypair { public: PublicKey { bytes: public }, secret }
    }
}

impl Signature {
    /// The placeholder signature.
    pub fn dummy() -> (r: Signature)
        ensures
            r.bytes@ == Seq::<u8>::empty(),
    {
        Signature { bytes: Vec::new() }
    }
}

impl Address {
    /// The address a public key maps to: its digest.
    pub fn from_public(public: &PublicKey) -> (r: Address)
        ensures
            r.bytes@ == blake3_of(public.bytes@),
    {
        let pv = bytes32_to_vec(&public.bytes);
        Address { bytes: blake3_digest(&pv) }
    }
}

/// The seed phrase hashed into the default global-random-oracle
/// response.
pub open spec fn eta_seed() -> Seq<u8> {
    seq![
        108u8,
        101u8,
        116u8,
        32u8,
        116u8,
        104u8,
        101u8,
        114u8,
        101u8,
        32u8,
        98u8,
        101u8,
        32u8,
        100u8,
        97u8,
        114u8,
        107u8,
        33u8,
    ]
}

fn eta_seed_bytes() -> (r: Vec<u8>)
    ensures
        r@ == eta_seed(),
{
    let mut v: Vec<u8> = Vec::new();
    v.push(108u8);
    v.push(101u8);
    v.push(116u8);
    v.push(32u8);
    v.push(116u8);
    v.push(104u8);
    v.push(101u8);
    v.push(114u8);
    v.push(101u8);
    v.push(32u8);
    v.push(98u8);
    v.push(101u8);
    v.push(32u8);
    v.push(100u8);
    v.push(97u8);
    v.push(114u8);
    v.push(107u8);
    v.push(33u8);
    proof {
        assert(v@ =~= eta_seed());
    }
    v
}

/// Block information used by the consensus protocol.
#[derive(Debug, Clone, PartialEq)]
pub struct Metadata {
    /// Block owner signature.
    pub signature: Signature,
    /// Block owner address.
    pub address: Address,
    /// Block owner slot competing coins public inputs.
    pub public_inputs: Vec<MerkleNode>,
    /// Block owner winning coin index.
    pub winning_index: usize,
    /// Response of the global random oracle, or its emulation.
    pub eta: [u8; 32],
    /// Leader proof.
    pub proof: LeadProof,
    /// Nodes participating in the consensus process.
    pub participants: Vec<Participant>,
}

impl Metadata {
    /// Assemble block metadata from its parts.
    pub fn new(
        signature: Signature,
        address: Address,
        public_inputs: Vec<MerkleNode>,
        winning_index: usize,
        eta: [u8; 32],
        proof: LeadProof,
        participants: Vec<Participant>,
    ) -> (r: Metadata)
        ensures
            r.signature == signature,
            r.address == address,
            r.public_inputs == public_inputs,
            r.winning_index == winning_index,
            r.eta == eta,
            r.proof == proof,
            r.participants == participants,
    {
        Metadata { signature, address, public_inputs, winning_index, eta, proof, participants }
    }
}

impl Default for Metadata {
    /// Empty metadata under a fresh random identity; the oracle
    /// response is the digest of the fixed seed phrase.
    fn default() -> (r: Metadata)
        ensures
            r.signature.bytes@ == Seq::<u8>::empty(),
            r.public_inputs@ == Seq::<MerkleNode>::empty(),
            r.winning_index == 0,
            r.eta@ == blake3_of(eta_seed()),
            r.proof.proof@ == Seq::<u8>::empty(),
            r.participants@ == Seq::<Participant>::empty(),
    {
        let keypair = Keypair::random();
        let address = Address::from_public(&keypair.public);
        let signature = Signature::dummy();
        let public_inputs: Vec<MerkleNode> = Vec::new();
        let winning_index: usize = 0;
        let eta = blake3_digest(&eta_seed_bytes());
        let proof = LeadProof { proof: Vec::new() };
        let participants: Vec<Participant> = Vec::new();
        Metadata { signature, address, public_inputs, winning_index, eta, proof, participants }
    }
}

} // verus!

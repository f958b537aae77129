//! The wire codec, the outside-crate bindings, and block metadata.

use darkcore::codec::{
    read_bytes, read_node, read_nodes, read_u32, read_u64, write_bytes, write_nodes, write_u32,
    write_u64,
};
use darkcore::errors::ContractError;
use darkcore::metadata::{
    sign_message, verify_signature, Keypair, LeadCoin, LeadProof, Metadata, ProvingKey, PublicKey,
    VerifyingKey,
};
use darkcore::types::MerkleNode;

#[test]
fn u32_little_endian_exact_bytes() {
    let mut v = Vec::new();
    write_u32(&mut v, 0x1234_5678);
    assert_eq!(v, vec![0x78, 0x56, 0x34, 0x12]);
    let (val, pos) = read_u32(&v, 0).unwrap();
    assert_eq!(val, 0x1234_5678);
    assert_eq!(pos, 4);
    assert!(read_u32(&v, 1).is_none());
}

#[test]
fn u64_little_endian_exact_bytes() {
    let mut v = Vec::new();
    write_u64(&mut v, 0x0102_0304_0506_0708);
    assert_eq!(v, vec![0x08, 0x07, 0x06, 0x05, 0x04, 0x03, 0x02, 0x01]);
    let (val, pos) = read_u64(&v, 0).unwrap();
    assert_eq!(val, 0x0102_0304_0506_0708);
    assert_eq!(pos, 8);
}

#[test]
fn length_prefixed_bytes_round_trip() {
    let mut v = Vec::new();
    write_bytes(&mut v, &vec![9, 8, 7]);
    assert_eq!(v, vec![3, 0, 0, 0, 9, 8, 7]);
    let (b, pos) = read_bytes(&v, 0).unwrap();
    assert_eq!(b, vec![9, 8, 7]);
    assert_eq!(pos, 7);
    // A length that runs past the end does not parse.
    let broken = vec![4, 0, 0, 0, 9];
    assert!(read_bytes(&broken, 0).is_none());
}

#[test]
fn node_lists_round_trip() {
    let mut a = [0u8; 32];
    a[0] = 1;
    let mut b = [0u8; 32];
    b[31] = 2;
    let ns = vec![MerkleNode::new(a), MerkleNode::new(b)];
    let mut v = Vec::new();
    write_nodes(&mut v, &ns);
    assert_eq!(v.len(), 4 + 64);
    let (back, pos) = read_nodes(&v, 0).unwrap();
    assert_eq!(back, ns);
    assert_eq!(pos, 68);
    let (first, p2) = read_node(&v, 4).unwrap();
    assert_eq!(first, ns[0]);
    assert_eq!(p2, 36);
    // A count that promises more nodes than the buffer holds.
    let mut broken = Vec::new();
    write_u32(&mut broken, 3);
    assert!(read_nodes(&broken, 0).is_none());
}

#[test]
fn proof_checks_bind_key_and_inputs() {
    let pk = ProvingKey { key: b"key-a".to_vec() };
    let vk_good = VerifyingKey { key: b"key-a".to_vec() };
    let vk_bad = VerifyingKey { key: b"key-b".to_vec() };
    let coin = LeadCoin { public_inputs: vec![MerkleNode::new([7; 32])] };
    let proof = LeadProof::new(&pk, &coin);
    assert_eq!(proof.verify(&vk_good, &coin.public_inputs), Ok(()));
    assert_eq!(proof.verify(&vk_bad, &coin.public_inputs), Err(ContractError::InvalidProof));
    let other = LeadCoin { public_inputs: vec![MerkleNode::new([8; 32])] };
    assert_eq!(proof.verify(&vk_good, &other.public_inputs), Err(ContractError::InvalidProof));
}

#[test]
fn signature_checks_bind_key_and_message() {
    let public = PublicKey { bytes: [3; 32] };
    let msg = b"state transition".to_vec();
    let sig = sign_message(&public, &msg);
    assert!(verify_signature(&public.bytes.to_vec(), &msg, &sig));
    assert!(!verify_signature(&[4; 32].to_vec(), &msg, &sig));
    assert!(!verify_signature(&public.bytes.to_vec(), &b"other".to_vec(), &sig));
}

#[test]
fn random_keypair_hashes_secret_to_public() {
    let kp = Keypair::random();
    assert_eq!(kp.public.bytes, *blake3::hash(&kp.secret).as_bytes());
    // Two draws almost surely differ; equal draws would mean the
    // entropy source is broken.
    let kp2 = Keypair::random();
    assert_ne!(kp.secret, kp2.secret);
}

#[test]
fn default_metadata_hashes_the_seed_phrase() {
    let md = Metadata::default();
    assert_eq!(md.eta, *blake3::hash(b"let there be dark!").as_bytes());
    assert_eq!(md.winning_index, 0);
    assert!(md.signature.bytes.is_empty());
    assert!(md.public_inputs.is_empty());
    assert!(md.participants.is_empty());
}

#[test]
fn error_names_are_stable() {
    assert_eq!(ContractError::MalformedCallTree.name(), "malformed call tree");
    assert_eq!(ContractError::AccessDenied.name(), "access denied");
    assert_eq!(ContractError::OutOfGas.name(), "out of gas");
    assert_eq!(ContractError::InvalidProof.name(), "invalid proof");
    assert_eq!(ContractError::InvalidSignature.name(), "invalid signature");
    assert_eq!(ContractError::CoinStillInGracePeriod.name(), "coin still in grace period");
    assert_eq!(ContractError::MerkleRootNotFound.name(), "merkle root not found");
    assert_eq!(ContractError::DuplicateNullifier.name(), "duplicate nullifier");
    assert_eq!(ContractError::DuplicateCoin.name(), "duplicate coin");
    assert_eq!(ContractError::ValueMismatch.name(), "value mismatch");
    assert_eq!(ContractError::InternalError.name(), "internal error");
}

#[test]
fn broadcast_string_is_base58_of_the_wire_bytes() {
    let tx = darkcore::driver::Transaction {
        calls: vec![darkcore::calltree::DarkLeaf {
            data: darkcore::contract::ContractCall {
                contract_id: darkcore::types::ContractId::new([1; 32]),
                data: vec![1, 2, 3],
            },
            index: 0,
            parent_index: None,
            children_indexes: Vec::new(),
        }],
        proofs: vec![LeadProof { proof: vec![4, 5] }],
        signatures: vec![darkcore::metadata::Signature { bytes: vec![6] }],
    };
    let encoded = tx.encode();
    // The wire form starts with the call count and the contract id.
    assert_eq!(&encoded[0..4], &[1, 0, 0, 0]);
    assert_eq!(&encoded[4..36], &[1u8; 32]);
    assert_eq!(tx.broadcast_string(), bs58::encode(&encoded).into_string());
}

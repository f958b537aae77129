//! The transition protocol: four phases, atomicity, replay protection.

use darkcore::bridge::{DbHandle, Section};
use darkcore::calltree::DarkLeaf;
use darkcore::contract::{
    consensus_unstake_request_get_metadata_v1, consensus_unstake_request_process_instruction_v1,
    encode_params, ContractCall, StakeInput, StakeOutput, UnstakeReqParams,
    CONSENSUS_CONTRACT_INFO_TREE, CONSENSUS_CONTRACT_NULLIFIERS_TREE,
    CONSENSUS_CONTRACT_STAKED_COIN_ROOTS_TREE, CONSENSUS_CONTRACT_UNSTAKED_COINS_TREE,
    CONSENSUS_CONTRACT_UNSTAKED_COIN_LATEST_COIN_ROOT, CONSENSUS_CONTRACT_UNSTAKED_COIN_ROOTS_TREE,
    CONSENSUS_CONTRACT_UNSTAKED_COIN_MERKLE_TREE,
};
use darkcore::driver::{run_transaction, Transaction};
use darkcore::errors::ContractError;
use darkcore::metadata::{sign_message, LeadProof, PublicKey, VerifyingKey};
use darkcore::store::Store;
use darkcore::types::ContractId;

fn cid() -> ContractId {
    let mut b = [0u8; 32];
    b[0] = 77;
    ContractId::new(b)
}

fn b32(tag: u8) -> [u8; 32] {
    let mut b = [0u8; 32];
    b[0] = tag;
    b[1] = 0xaa;
    b
}

/// The consensus contract's five namespaces, with an empty commitment
/// tree stored and one accepted staked-coin root.
fn setup_store(accepted_root: &[u8; 32]) -> (Store, Vec<DbHandle>) {
    let mut store = Store::new(5);
    let mut tree_value = Vec::new();
    darkcore::codec::write_u32(&mut tree_value, 0);
    darkcore::codec::write_u32(&mut tree_value, 0);
    store.set(0, vec![CONSENSUS_CONTRACT_UNSTAKED_COIN_MERKLE_TREE], tree_value);
    store.set(3, accepted_root.to_vec(), Vec::new());
    let owner = cid();
    let handles = vec![
        DbHandle { contract_id: owner, name: vec![CONSENSUS_CONTRACT_INFO_TREE], table: 0 },
        DbHandle { contract_id: owner, name: vec![CONSENSUS_CONTRACT_NULLIFIERS_TREE], table: 1 },
        DbHandle {
            contract_id: owner,
            name: vec![CONSENSUS_CONTRACT_UNSTAKED_COINS_TREE],
            table: 2,
        },
        DbHandle {
            contract_id: owner,
            name: vec![CONSENSUS_CONTRACT_STAKED_COIN_ROOTS_TREE],
            table: 3,
        },
        DbHandle {
            contract_id: owner,
            name: vec![CONSENSUS_CONTRACT_UNSTAKED_COIN_ROOTS_TREE],
            table: 4,
        },
    ];
    (store, handles)
}

fn params(nullifier_tag: u8, coin_tag: u8, root: &[u8; 32]) -> UnstakeReqParams {
    UnstakeReqParams {
        input: StakeInput {
            epoch: 0,
            nullifier: b32(nullifier_tag),
            signature_public: b32(0x51),
            merkle_root: *root,
            value_commit: b32(0x7c),
        },
        output: StakeOutput { value_commit: b32(0x7c), coin: b32(coin_tag) },
    }
}

fn vk() -> VerifyingKey {
    VerifyingKey { key: b"consensus-vk".to_vec() }
}

/// A transaction over the given flattened calls, with a valid proof
/// and signature derived for each call.
fn tx_for(calls: Vec<DarkLeaf<ContractCall>>) -> Transaction {
    let mut proofs = Vec::new();
    let mut signatures = Vec::new();
    for i in 0..calls.len() {
        let c = &calls[i].data.contract_id;
        let md = consensus_unstake_request_get_metadata_v1(c, i as u32, &calls).unwrap();
        proofs.push(LeadProof::attest_msg(&vk().key, &md));
        let mut pk = [0u8; 32];
        pk.copy_from_slice(&md[41..73]);
        signatures.push(sign_message(&PublicKey { bytes: pk }, &md));
    }
    Transaction { calls, proofs, signatures }
}

fn single_call_leaf(p: &UnstakeReqParams) -> DarkLeaf<ContractCall> {
    DarkLeaf {
        data: ContractCall { contract_id: cid(), data: encode_params(p) },
        index: 0,
        parent_index: None,
        children_indexes: Vec::new(),
    }
}

#[test]
fn single_call_transaction_commits_its_effect() {
    let root = b32(0xf0);
    let (store, handles) = setup_store(&root);
    let p = params(1, 2, &root);
    let tx = tx_for(vec![single_call_leaf(&p)]);
    let (store2, r) = run_transaction(&tx, store, handles, &vk(), 10, 1_000_000);
    assert_eq!(r, Ok(()));
    // The nullifier and the coin are persisted.
    assert!(store2.get(1, &p.input.nullifier.to_vec()).is_some());
    assert!(store2.get(2, &p.output.coin.to_vec()).is_some());
    // The commitment tree grew by the coin and the latest-root pointer
    // moved to the root produced by that append.
    let mut buf = Vec::new();
    buf.extend_from_slice(blake3::hash(b"").as_bytes());
    buf.extend_from_slice(&p.output.coin);
    let new_root = *blake3::hash(&buf).as_bytes();
    assert!(store2.get(4, &new_root.to_vec()).is_some());
    assert_eq!(
        store2.get(0, &vec![CONSENSUS_CONTRACT_UNSTAKED_COIN_LATEST_COIN_ROOT]).unwrap(),
        &new_root.to_vec()
    );
}

#[test]
fn failing_second_call_leaves_store_byte_identical() {
    let root = b32(0xf0);
    let (mut store, handles) = setup_store(&root);
    // Call B's nullifier was already accepted: its validation fails.
    let pa = params(1, 2, &root);
    let pb = params(3, 4, &root);
    store.set(1, pb.input.nullifier.to_vec(), Vec::new());
    let before = store.clone();

    let calls = vec![
        DarkLeaf {
            data: ContractCall { contract_id: cid(), data: encode_params(&pa) },
            index: 0,
            parent_index: Some(1),
            children_indexes: Vec::new(),
        },
        DarkLeaf {
            data: ContractCall { contract_id: cid(), data: encode_params(&pb) },
            index: 1,
            parent_index: None,
            children_indexes: vec![0],
        },
    ];
    let tx = tx_for(calls);
    let (store2, r) = run_transaction(&tx, store, handles, &vk(), 10, 1_000_000);
    assert_eq!(r, Err((1, ContractError::DuplicateNullifier)));
    // Atomicity under partial failure: nothing of call A persisted
    // either.
    assert_eq!(store2, before);
}

#[test]
fn resubmitted_nullifier_is_rejected_without_change() {
    let root = b32(0xf0);
    let (store, handles) = setup_store(&root);
    let p = params(1, 2, &root);
    let tx = tx_for(vec![single_call_leaf(&p)]);
    let (store2, r) = run_transaction(&tx, store, handles.clone(), &vk(), 10, 1_000_000);
    assert_eq!(r, Ok(()));
    // Resubmitting the same transaction: its uniqueness key was
    // already accepted.
    let committed = store2.clone();
    let (store3, r2) = run_transaction(&tx, store2, handles, &vk(), 10, 1_000_000);
    assert_eq!(r2, Err((0, ContractError::DuplicateNullifier)));
    assert_eq!(store3, committed);
}

#[test]
fn wrong_proof_or_signature_is_rejected() {
    let root = b32(0xf0);
    let (store, handles) = setup_store(&root);
    let p = params(1, 2, &root);
    let mut tx = tx_for(vec![single_call_leaf(&p)]);
    tx.proofs[0] = LeadProof { proof: vec![1, 2, 3] };
    let before = store.clone();
    let (store2, r) = run_transaction(&tx, store, handles.clone(), &vk(), 10, 1_000_000);
    assert_eq!(r, Err((0, ContractError::InvalidProof)));
    assert_eq!(store2, before);

    let mut tx = tx_for(vec![single_call_leaf(&p)]);
    tx.signatures[0] = darkcore::metadata::Signature { bytes: vec![9, 9] };
    let (store3, r2) = run_transaction(&tx, store2, handles, &vk(), 10, 1_000_000);
    assert_eq!(r2, Err((0, ContractError::InvalidSignature)));
    assert_eq!(store3, before);
}

#[test]
fn malformed_call_sequence_is_rejected() {
    let root = b32(0xf0);
    let (store, handles) = setup_store(&root);
    let p = params(1, 2, &root);
    let mut leaf = single_call_leaf(&p);
    leaf.index = 5;
    let tx = tx_for(vec![leaf]);
    let before = store.clone();
    let (store2, r) = run_transaction(&tx, store, handles, &vk(), 10, 1_000_000);
    assert_eq!(r, Err((0, ContractError::MalformedCallTree)));
    assert_eq!(store2, before);
}

#[test]
fn grace_period_and_value_mismatch_are_rejected() {
    let root = b32(0xf0);
    let (store, handles) = setup_store(&root);
    // A coin minted in epoch 9, verified at epoch 10: still in grace.
    let mut p = params(1, 2, &root);
    p.input.epoch = 9;
    let tx = tx_for(vec![single_call_leaf(&p)]);
    let before = store.clone();
    let (store2, r) = run_transaction(&tx, store, handles.clone(), &vk(), 10, 1_000_000);
    assert_eq!(r, Err((0, ContractError::CoinStillInGracePeriod)));
    assert_eq!(store2, before);

    // Output commitment disagrees with the input commitment.
    let mut p = params(1, 2, &root);
    p.output.value_commit = b32(0x7d);
    let tx = tx_for(vec![single_call_leaf(&p)]);
    let (store3, r2) = run_transaction(&tx, store2, handles.clone(), &vk(), 10, 1_000_000);
    assert_eq!(r2, Err((0, ContractError::ValueMismatch)));
    assert_eq!(store3, before);

    // The claimed root was never produced.
    let p = params(1, 2, &b32(0xf1));
    let tx = tx_for(vec![single_call_leaf(&p)]);
    let (store4, r3) = run_transaction(&tx, store3, handles, &vk(), 10, 1_000_000);
    assert_eq!(r3, Err((0, ContractError::MerkleRootNotFound)));
    assert_eq!(store4, before);
}

#[test]
fn process_instruction_reports_duplicate_coin() {
    let root = b32(0xf0);
    let (mut store, handles) = setup_store(&root);
    let p = params(1, 2, &root);
    store.set(2, p.output.coin.to_vec(), Vec::new());
    let calls = vec![single_call_leaf(&p)];
    let mut env = darkcore::bridge::HostEnv {
        contract_id: cid(),
        section: Section::Instruction,
        handles,
        overlay: darkcore::store::Overlay::new(store),
        gas: darkcore::bridge::GasMeter { remaining: 1_000_000 },
    };
    let r = consensus_unstake_request_process_instruction_v1(&cid(), 0, &calls, &mut env, 10);
    assert_eq!(r, Err(ContractError::DuplicateCoin));
}

#[test]
fn missing_namespace_resolution_is_denied() {
    let root = b32(0xf0);
    let (store, mut handles) = setup_store(&root);
    // Drop the nullifiers namespace: resolution fails in phase three.
    handles.remove(1);
    let p = params(1, 2, &root);
    let tx = tx_for(vec![single_call_leaf(&p)]);
    let before = store.clone();
    let (store2, r) = run_transaction(&tx, store, handles, &vk(), 10, 1_000_000);
    assert_eq!(r, Err((0, ContractError::AccessDenied)));
    assert_eq!(store2, before);
}

#[test]
fn exhausted_budget_aborts_without_change() {
    let root = b32(0xf0);
    let (store, handles) = setup_store(&root);
    let p = params(1, 2, &root);
    let tx = tx_for(vec![single_call_leaf(&p)]);
    let before = store.clone();
    let (store2, r) = run_transaction(&tx, store, handles, &vk(), 10, 10);
    assert_eq!(r, Err((0, ContractError::OutOfGas)));
    assert_eq!(store2, before);
}

//! The commitment-append primitive: roots, phase gating, atomicity.

use darkcore::bridge::{merkle_add, DbHandle, GasMeter, HostEnv, Section};
use darkcore::errors::ContractError;
use darkcore::store::{Overlay, Store};
use darkcore::types::{ContractId, MerkleNode};

fn cid(tag: u8) -> ContractId {
    let mut b = [0u8; 32];
    b[0] = tag;
    ContractId::new(b)
}

fn node(tag: u8) -> MerkleNode {
    let mut b = [0u8; 32];
    b[0] = tag;
    MerkleNode::new(b)
}

/// An empty serialized commitment tree: element count zero, no leaves.
fn empty_tree_value() -> Vec<u8> {
    let mut v = Vec::new();
    darkcore::codec::write_u32(&mut v, 0);
    darkcore::codec::write_u32(&mut v, 0);
    v
}

/// A store with an info table (0) holding an empty tree under
/// `tree_key`, and an empty roots table (1); with matching handles.
fn setup(owner: &ContractId, tree_key: &[u8]) -> (Store, Vec<DbHandle>) {
    let mut store = Store::new(2);
    store.set(0, tree_key.to_vec(), empty_tree_value());
    let handles = vec![
        DbHandle { contract_id: *owner, name: b"info".to_vec(), table: 0 },
        DbHandle { contract_id: *owner, name: b"roots".to_vec(), table: 1 },
    ];
    (store, handles)
}

fn env_for(owner: ContractId, section: Section, store: Store, handles: Vec<DbHandle>) -> HostEnv {
    HostEnv {
        contract_id: owner,
        section,
        handles,
        overlay: Overlay::new(store),
        gas: GasMeter { remaining: 1_000_000 },
    }
}

/// The digest-chain root after appending each leaf, computed with the
/// outside hash directly.
fn expected_roots(leaves: &[MerkleNode]) -> Vec<[u8; 32]> {
    let mut acc = *blake3::hash(b"").as_bytes();
    let mut out = Vec::new();
    for l in leaves {
        let mut buf = Vec::new();
        buf.extend_from_slice(&acc);
        buf.extend_from_slice(&l.bytes);
        acc = *blake3::hash(&buf).as_bytes();
        out.push(acc);
    }
    out
}

#[test]
fn three_appends_record_three_distinct_roots() {
    let owner = cid(9);
    let root_key = vec![5u8];
    let tree_key = vec![6u8];
    let (store, handles) = setup(&owner, &tree_key);
    let mut env = env_for(owner, Section::Update, store, handles);

    let coins = vec![node(1), node(2), node(3)];
    merkle_add(&mut env, 0, 1, root_key.clone(), tree_key.clone(), &coins).unwrap();
    let store = env.overlay.commit();

    let roots = expected_roots(&coins);
    assert_ne!(roots[0], roots[1]);
    assert_ne!(roots[1], roots[2]);
    assert_ne!(roots[0], roots[2]);
    // All three intermediate roots are in the accepted-roots table.
    for r in &roots {
        assert!(store.get(1, &r.to_vec()).is_some());
    }
    // The latest-root pointer names the root produced after the third
    // append.
    assert_eq!(store.get(0, &root_key).unwrap(), &roots[2].to_vec());
    // The stored tree now counts three elements and holds the three
    // leaves.
    let mut expected_value = Vec::new();
    darkcore::codec::write_u32(&mut expected_value, 3);
    darkcore::codec::write_nodes(&mut expected_value, &coins);
    assert_eq!(store.get(0, &tree_key).unwrap(), &expected_value);
}

#[test]
fn append_outside_update_phase_is_denied_and_stages_nothing() {
    let owner = cid(9);
    let root_key = vec![5u8];
    let tree_key = vec![6u8];
    let (store, handles) = setup(&owner, &tree_key);
    let before = store.clone();
    let mut env = env_for(owner, Section::Metadata, store, handles);

    let coins = vec![node(1)];
    let r = merkle_add(&mut env, 0, 1, root_key, tree_key, &coins);
    assert_eq!(r, Err(ContractError::AccessDenied));
    // The store is byte-identical before and after the attempt.
    assert!(env.overlay.log.is_empty());
    assert_eq!(env.overlay.commit(), before);
}

#[test]
fn append_through_foreign_handle_is_denied() {
    let owner = cid(9);
    let thief = cid(13);
    let root_key = vec![5u8];
    let tree_key = vec![6u8];
    let (store, handles) = setup(&owner, &tree_key);
    let before = store.clone();
    // The executing contract does not own the handles it names.
    let mut env = env_for(thief, Section::Update, store, handles);
    let r = merkle_add(&mut env, 0, 1, root_key, tree_key, &vec![node(1)]);
    assert_eq!(r, Err(ContractError::AccessDenied));
    assert_eq!(env.overlay.commit(), before);
}

#[test]
fn append_without_stored_tree_is_internal_error() {
    let owner = cid(9);
    let root_key = vec![5u8];
    let (store, handles) = setup(&owner, &[6u8]);
    let before = store.clone();
    let mut env = env_for(owner, Section::Update, store, handles);
    // No tree is stored under this other key.
    let r = merkle_add(&mut env, 0, 1, root_key, vec![7u8], &vec![node(1)]);
    assert_eq!(r, Err(ContractError::InternalError));
    assert_eq!(env.overlay.commit(), before);
}

#[test]
fn append_with_tiny_budget_runs_out_of_gas() {
    let owner = cid(9);
    let root_key = vec![5u8];
    let tree_key = vec![6u8];
    let (store, handles) = setup(&owner, &tree_key);
    let before = store.clone();
    let mut env = env_for(owner, Section::Update, store, handles);
    env.gas.remaining = 3;
    let r = merkle_add(&mut env, 0, 1, root_key, tree_key, &vec![node(1)]);
    assert_eq!(r, Err(ContractError::OutOfGas));
    assert_eq!(env.gas.remaining, 0);
    assert_eq!(env.overlay.commit(), before);
}

#[test]
fn commitment_tree_root_matches_outside_hash() {
    // The empty tree's root is the digest of the empty string.
    let tree = darkcore::commit::CommitmentTree::new();
    assert_eq!(tree.root(), *blake3::hash(b"").as_bytes());
    // One append moves the root along the digest chain.
    let mut tree = tree;
    tree.append(node(1));
    assert_eq!(tree.root(), expected_roots(&[node(1)])[0]);
}

#[test]
fn overlay_reads_merge_base_and_stage() {
    let mut store = Store::new(1);
    store.set(0, vec![1], vec![10]);
    let mut o = Overlay::new(store);
    assert_eq!(o.get(0, &vec![1]).unwrap(), &vec![10]);
    o.insert(0, vec![1], vec![20]);
    o.insert(0, vec![2], vec![30]);
    // Staged writes win over the base; the base is untouched.
    assert_eq!(o.get(0, &vec![1]).unwrap(), &vec![20]);
    assert_eq!(o.get(0, &vec![2]).unwrap(), &vec![30]);
    assert_eq!(o.base.get(0, &vec![1]).unwrap(), &vec![10]);
    assert!(o.base.get(0, &vec![2]).is_none());
    // Rolling back to a checkpoint drops exactly what came after it.
    let cp = o.checkpoint();
    o.insert(0, vec![3], vec![40]);
    o.rollback(cp);
    assert!(o.get(0, &vec![3]).is_none());
    // Committing promotes the staged writes.
    let store = o.commit();
    assert_eq!(store.get(0, &vec![1]).unwrap(), &vec![20]);
    assert_eq!(store.get(0, &vec![2]).unwrap(), &vec![30]);
}

#[test]
fn wire_form_append_behaves_like_the_direct_call() {
    let owner = cid(9);
    let root_key = vec![5u8];
    let tree_key = vec![6u8];
    let (store, handles) = setup(&owner, &tree_key);
    let mut env = env_for(owner, Section::Update, store, handles);

    // The payload a call submits: info handle, roots handle, the two
    // keys, and one leaf.
    let coins = vec![node(1)];
    let mut payload = Vec::new();
    darkcore::codec::write_u32(&mut payload, 0);
    darkcore::codec::write_u32(&mut payload, 1);
    darkcore::codec::write_bytes(&mut payload, &root_key);
    darkcore::codec::write_bytes(&mut payload, &tree_key);
    darkcore::codec::write_nodes(&mut payload, &coins);
    darkcore::bridge::merkle_add_wire(&mut env, &payload).unwrap();

    let store = env.overlay.commit();
    let roots = expected_roots(&coins);
    assert!(store.get(1, &roots[0].to_vec()).is_some());
    assert_eq!(store.get(0, &root_key).unwrap(), &roots[0].to_vec());
}

#[test]
fn wire_form_append_rejects_undecodable_payloads_and_wrong_phase() {
    let owner = cid(9);
    let tree_key = vec![6u8];
    let (store, handles) = setup(&owner, &tree_key);
    let before = store.clone();
    // The phase gate comes first, whatever the payload holds.
    let mut env = env_for(owner, Section::Metadata, store, handles.clone());
    let r = darkcore::bridge::merkle_add_wire(&mut env, &vec![1, 2]);
    assert_eq!(r, Err(ContractError::AccessDenied));
    let store = env.overlay.commit();
    assert_eq!(store, before);
    // In the right phase, a truncated payload does not decode.
    let mut env = env_for(owner, Section::Update, store, handles);
    let r = darkcore::bridge::merkle_add_wire(&mut env, &vec![1, 2]);
    assert_eq!(r, Err(ContractError::InternalError));
    assert_eq!(env.overlay.commit(), before);
}

#[test]
fn append_onto_malformed_stored_tree_is_internal_error() {
    let owner = cid(9);
    let tree_key = vec![6u8];
    let mut store = Store::new(2);
    // A stored value with trailing garbage does not decode as a tree.
    let mut bad = empty_tree_value();
    bad.push(0xee);
    store.set(0, tree_key.clone(), bad);
    let handles = vec![
        DbHandle { contract_id: owner, name: b"info".to_vec(), table: 0 },
        DbHandle { contract_id: owner, name: b"roots".to_vec(), table: 1 },
    ];
    let before = store.clone();
    let mut env = env_for(owner, Section::Update, store, handles);
    let r = merkle_add(&mut env, 0, 1, vec![5u8], tree_key, &vec![node(1)]);
    assert_eq!(r, Err(ContractError::InternalError));
    assert_eq!(env.overlay.commit(), before);
}

//! The host state bridge: everything a contract call may do to
//! persistent state.  Every operation resolves its handle and checks
//! ownership and the lifecycle phase before touching anything, charges
//! gas, and stages its writes in the transaction's overlay — so a
//! failed operation leaves the store exactly as it was.

use vstd::prelude::*;

use crate::codec::{
    enc_nodes, nodes_bytes, parse_bytes, parse_nodes, parse_u32, read_bytes, read_nodes, read_u32,
    u32_le, write_nodes, write_u32,
};
use crate::commit::{append_root, chain_roots, root_of, CommitmentTree};
use crate::errors::ContractError;
use crate::store::{lemma_apply_log_len, overlay_view, store_view, Overlay};
use crate::types::{bytes32_to_vec, id_eq, ContractId, MerkleNode};

verus! {

/// Lifecycle phase a contract call runs under; every host operation is
/// gated on the phase it is invoked from.
#[derive(Clone, Copy, PartialEq, Eq, Structural, Debug)]
pub enum Section {
    Metadata,
    Instruction,
    Update,
    Deploy,
}

/// A capability pairing an owning contract with a store namespace.
#[derive(Debug, Clone, PartialEq)]
pub struct DbHandle {
    /// The contract that owns this namespace.
    pub contract_id: ContractId,
    /// The namespace's name.
    pub name: Vec<u8>,
    /// The namespace's table in the store.
    pub table: usize,
}

/// The remaining gas budget of one execution; operations abort with
/// `OutOfGas` rather than let it go negative.
#[derive(Debug, Clone, Copy, PartialEq)]
pub struct GasMeter {
    pub remaining: u64,
}

impl GasMeter {
    /// Deduct `amount`, or exhaust the meter and fail.
    pub fn charge(&mut self, amount: u64) -> (r: Result<(), ContractError>)
        ensures
            amount <= old(self).remaining ==> r is Ok && final(self).remaining == old(
                self,
            ).remaining - amount,
            amount > old(self).remaining ==> r == Err::<(), ContractError>(ContractError::OutOfGas)
                && final(self).remaining == 0,
    {
        if amount > self.remaining {
            self.remaining = 0;
            Err(ContractError::OutOfGas)
        } else {
            self.remaining = self.remaining - amount;
            Ok(())
        }
    }
}

/// The state one contract call sees through the bridge: its identity,
/// its lifecycle phase, the handle table, the transaction's overlay,
/// and its gas meter.
#[derive(Debug, Clone, PartialEq)]
pub struct HostEnv {
    /// The executing contract.
    pub contract_id: ContractId,
    /// The lifecycle phase the call runs under.
    pub section: Section,
    /// The handles the call may refer to, by index.
    pub handles: Vec<DbHandle>,
    /// The transaction's staged view of the store.
    pub overlay: Overlay,
    /// The call's remaining gas.
    pub gas: GasMeter,
}

/// Well-formedness: every handle and every staged write names a table
/// the store has.
pub open spec fn env_wf(e: HostEnv) -> bool {
    &&& forall|h: int|
        0 <= h < e.handles@.len() ==> (#[trigger] e.handles@[h].table) < store_view(
            e.overlay.base,
        ).len()
    &&& forall|j: int|
        0 <= j < e.overlay.log@.len() ==> (#[trigger] e.overlay.log@[j].table) < store_view(
            e.overlay.base,
        ).len()
}

/// Handle `h` exists and is owned by the executing contract.
pub open spec fn handle_owned(e: HostEnv, h: int) -> bool {
    0 <= h < e.handles@.len() && e.handles@[h].contract_id.bytes@ == e.contract_id.bytes@
}

/// The handle index that resolving `(cid, name)` yields: the first
/// handle carrying that owner and namespace name.
pub open spec fn lookup_spec(handles: Seq<DbHandle>, cid: Seq<u8>, name: Seq<u8>) -> Option<int>
    decreases handles.len(),
{
    if handles.len() == 0 {
        None
    } else if handles[0].contract_id.bytes@ == cid && handles[0].name@ == name {
        Some(0)
    } else {
        match lookup_spec(handles.skip(1), cid, name) {
            Some(i) => Some(i + 1),
            None => None,
        }
    }
}

/// What resolution yields: the first match, or nothing anywhere.
pub proof fn lemma_lookup_spec_char(handles: Seq<DbHandle>, cid: Seq<u8>, name: Seq<u8>)
    ensures
        match lookup_spec(handles, cid, name) {
            Some(i) => 0 <= i < handles.len() && handles[i].contract_id.bytes@ == cid
                && handles[i].name@ == name && forall|j: int|
                0 <= j < i ==> !((#[trigger] handles[j].contract_id.bytes@) == cid
                    && handles[j].name@ == name),
            None => forall|j: int|
                0 <= j < handles.len() ==> !((#[trigger] handles[j].contract_id.bytes@) == cid
                    && handles[j].name@ == name),
        },
    decreases handles.len(),
{
    if handles.len() > 0 {
        if !(handles[0].contract_id.bytes@ == cid && handles[0].name@ == name) {
            lemma_lookup_spec_char(handles.skip(1), cid, name);
            assert forall|j: int|
                1 <= j < handles.len() implies handles.skip(1)[j - 1] == handles[j] by {}
        }
    }
}

/// Resolve the namespace `name` of contract `contract_id` to a handle
/// index.  Fails with `AccessDenied` when no such namespace is known.
#[verifier::loop_isolation(false)]
pub fn db_lookup(env: &HostEnv, contract_id: &ContractId, name: &Vec<u8>) -> (r: Result<
    usize,
    ContractError,
>)
    ensures
        match r {
            Ok(i) => lookup_spec(env.handles@, contract_id.bytes@, name@) == Some(i as int) && i
                < env.handles@.len() && env.handles@[i as int].contract_id.bytes@
                == contract_id.bytes@ && env.handles@[i as int].name@ == name@,
            Err(e) => e == ContractError::AccessDenied && lookup_spec(
                env.handles@,
                contract_id.bytes@,
                name@,
            ) is None,
        },
{
    proof {
        lemma_lookup_spec_char(env.handles@, contract_id.bytes@, name@);
    }
    let mut i: usize = 0;
    while i < env.handles.len()
        invariant
            0 <= i <= env.handles@.len(),
            forall|j: int|
                0 <= j < i ==> !((#[trigger] env.handles@[j].contract_id.bytes@)
                    == contract_id.bytes@ && env.handles@[j].name@ == name@),
        decreases env.handles.len() - i,
    {
        let h = vstd::std_specs::vec::vec_index(&env.handles, i);
        if id_eq(&h.contract_id, contract_id) && crate::types::bytes_eq(&h.name, name) {
            return Ok(i);
        }
        i += 1;
    }
    Err(ContractError::AccessDenied)
}

/// Read `key` through handle `handle`.  Allowed in every phase; charges
/// gas for the key; fails with `AccessDenied` on a foreign or missing
/// handle, and never stages a write.
pub fn db_get(env: &mut HostEnv, handle: usize, key: &Vec<u8>) -> (r: Result<
    Option<Vec<u8>>,
    ContractError,
>)
    requires
        env_wf(*old(env)),
    ensures
        env_wf(*final(env)),
        final(env).contract_id == old(env).contract_id,
        final(env).section == old(env).section,
        final(env).handles == old(env).handles,
        final(env).overlay == old(env).overlay,
        ({
            let e0 = *old(env);
            if !handle_owned(e0, handle as int) {
                r == Err::<Option<Vec<u8>>, ContractError>(ContractError::AccessDenied) && final(env).gas == e0.gas
            } else if key@.len() > e0.gas.remaining {
                r == Err::<Option<Vec<u8>>, ContractError>(ContractError::OutOfGas) && final(env).gas.remaining == 0
            } else {
                let t = e0.handles@[handle as int].table as int;
                final(env).gas.remaining == e0.gas.remaining - key@.len() && (match r {
                    Ok(v) => (match v {
                        Some(bytes) => overlay_view(e0.overlay)[t].contains_key(key@) && bytes@
                            == overlay_view(e0.overlay)[t][key@],
                        None => !overlay_view(e0.overlay)[t].contains_key(key@),
                    }),
                    Err(_) => false,
                })
            }
        }),
{
    if handle >= env.handles.len() {
        return Err(ContractError::AccessDenied);
    }
    let h = vstd::std_specs::vec::vec_index(&env.handles, handle);
    if !id_eq(&h.contract_id, &env.contract_id) {
        return Err(ContractError::AccessDenied);
    }
    let t = h.table;
    match env.gas.charge(key.len() as u64) {
        Ok(_) => (),
        Err(e) => {
            return Err(e);
        },
    }
    proof {
        lemma_apply_log_len(store_view(env.overlay.base), env.overlay.log@);
    }
    match env.overlay.get(t, key) {
        Some(v) => Ok(Some(crate::types::copy_bytes(v))),
        None => Ok(None),
    }
}

/// Whether `key` exists, through handle `handle`.  Same access rules
/// and gas as a read.
pub fn db_contains_key(env: &mut HostEnv, handle: usize, key: &Vec<u8>) -> (r: Result<
    bool,
    ContractError,
>)
    requires
        env_wf(*old(env)),
    ensures
        env_wf(*final(env)),
        final(env).contract_id == old(env).contract_id,
        final(env).section == old(env).section,
        final(env).handles == old(env).handles,
        final(env).overlay == old(env).overlay,
        ({
            let e0 = *old(env);
            if !handle_owned(e0, handle as int) {
                r == Err::<bool, ContractError>(ContractError::AccessDenied) && final(env).gas
                    == e0.gas
            } else if key@.len() > e0.gas.remaining {
                r == Err::<bool, ContractError>(ContractError::OutOfGas) && final(env).gas.remaining == 0
            } else {
                let t = e0.handles@[handle as int].table as int;
                final(env).gas.remaining == e0.gas.remaining - key@.len() && r == Ok::<
                    bool,
                    ContractError,
                >(overlay_view(e0.overlay)[t].contains_key(key@))
            }
        }),
{
    match db_get(env, handle, key) {
        Ok(Some(_)) => Ok(true),
        Ok(None) => Ok(false),
        Err(e) => Err(e),
    }
}

/// Stage a write of `value` under `key` through handle `handle`.
/// Allowed only in the `Update` and `Deploy` phases; charges gas for
/// key and value; a failure stages nothing.
pub fn db_set(env: &mut HostEnv, handle: usize, key: Vec<u8>, value: Vec<u8>) -> (r: Result<
    (),
    ContractError,
>)
    requires
        env_wf(*old(env)),
    ensures
        env_wf(*final(env)),
        final(env).contract_id == old(env).contract_id,
        final(env).section == old(env).section,
        final(env).handles == old(env).handles,
        final(env).overlay.base == old(env).overlay.base,
        ({
            let e0 = *old(env);
            if !(e0.section == Section::Update || e0.section == Section::Deploy) {
                r == Err::<(), ContractError>(ContractError::AccessDenied) && *final(env) == e0
            } else if !handle_owned(e0, handle as int) {
                r == Err::<(), ContractError>(ContractError::AccessDenied) && final(env).gas
                    == e0.gas && final(env).overlay == e0.overlay
            } else if key@.len() + value@.len() > e0.gas.remaining {
                r == Err::<(), ContractError>(ContractError::OutOfGas) && final(env).gas.remaining
                    == 0 && final(env).overlay == e0.overlay
            } else {
                let t = e0.handles@[handle as int].table as int;
                r is Ok && final(env).gas.remaining == e0.gas.remaining - key@.len()
                    - value@.len() && final(env).overlay.log@ == e0.overlay.log@.push(
                    crate::store::StagedWrite {
                        table: e0.handles@[handle as int].table,
                        key: key,
                        value: value,
                    },
                ) && overlay_view(final(env).overlay) == overlay_view(e0.overlay).update(
                    t,
                    overlay_view(e0.overlay)[t].insert(key@, value@),
                )
            }
        }),
{
    if !(matches!(env.section, Section::Update) || matches!(env.section, Section::Deploy)) {
        return Err(ContractError::AccessDenied);
    }
    if handle >= env.handles.len() {
        return Err(ContractError::AccessDenied);
    }
    let h = vstd::std_specs::vec::vec_index(&env.handles, handle);
    if !id_eq(&h.contract_id, &env.contract_id) {
        return Err(ContractError::AccessDenied);
    }
    let t = h.table;
    match env.gas.charge(key.len() as u64) {
        Ok(_) => (),
        Err(e) => {
            return Err(e);
        },
    }
    match env.gas.charge(value.len() as u64) {
        Ok(_) => (),
        Err(e) => {
            return Err(e);
        },
    }
    proof {
        lemma_apply_log_len(store_view(env.overlay.base), env.overlay.log@);
    }
    env.overlay.insert(t, key, value);
    Ok(())
}

/// How the commitment-append payload decodes: the two handle indexes,
/// the latest-root key, the tree key, and the leaves to append; the
/// whole buffer must be consumed.
pub open spec fn merkle_payload(b: Seq<u8>) -> Option<(int, int, Seq<u8>, Seq<u8>, Seq<Seq<u8>>)> {
    match parse_u32(b, 0) {
        None => None,
        Some(t1) => match parse_u32(b, t1.1) {
            None => None,
            Some(t2) => match parse_bytes(b, t2.1) {
                None => None,
                Some(t3) => match parse_bytes(b, t3.1) {
                    None => None,
                    Some(t4) => match parse_nodes(b, t4.1) {
                        None => None,
                        Some(t5) => if t5.1 == b.len() {
                            Some((t1.0 as int, t2.0 as int, t3.0, t4.0, t5.0))
                        } else {
                            None
                        },
                    },
                },
            },
        },
    }
}

/// How a stored commitment tree decodes: a bookkeeping element count,
/// then the leaves; the whole value must be consumed.
pub open spec fn tree_value(b: Seq<u8>) -> Option<(u32, Seq<Seq<u8>>)> {
    match parse_u32(b, 0) {
        None => None,
        Some(t) => match parse_nodes(b, t.1) {
            None => None,
            Some(t2) => if t2.1 == b.len() {
                Some((t.0, t2.0))
            } else {
                None
            },
        },
    }
}

/// The store maps after recording each root (as a key with an empty
/// value) in table `t`, in order.
pub open spec fn add_roots(
    view: Seq<Map<Seq<u8>, Seq<u8>>>,
    t: int,
    roots: Seq<Seq<u8>>,
) -> Seq<Map<Seq<u8>, Seq<u8>>>
    decreases roots.len(),
{
    if roots.len() == 0 {
        view
    } else {
        let prev = add_roots(view, t, roots.drop_last());
        if 0 <= t < prev.len() {
            prev.update(t, prev[t].insert(roots.last(), Seq::empty()))
        } else {
            prev
        }
    }
}

/// Recording roots never adds or removes tables.
pub proof fn lemma_add_roots_len(view: Seq<Map<Seq<u8>, Seq<u8>>>, t: int, roots: Seq<Seq<u8>>)
    ensures
        add_roots(view, t, roots).len() == view.len(),
    decreases roots.len(),
{
    if roots.len() > 0 {
        lemma_add_roots_len(view, t, roots.drop_last());
    }
}

/// What a successful commitment append leaves in the store: the
/// re-serialized tree (its bookkeeping count advanced by the number of
/// appended leaves) under the tree key, every newly produced root
/// recorded in the roots table, and — when anything was appended — the
/// latest-root pointer moved to the last new root.
pub open spec fn merkle_add_result(
    v0: Seq<Map<Seq<u8>, Seq<u8>>>,
    info_t: int,
    roots_t: int,
    root_key: Seq<u8>,
    tree_key: Seq<u8>,
    set_size: u32,
    leaves: Seq<Seq<u8>>,
    coins: Seq<Seq<u8>>,
) -> Seq<Map<Seq<u8>, Seq<u8>>> {
    let newbytes = u32_le((set_size + coins.len()) as u32) + enc_nodes(leaves + coins);
    let v1 = v0.update(info_t, v0[info_t].insert(tree_key, newbytes));
    let v2 = add_roots(v1, roots_t, chain_roots(leaves, coins));
    if coins.len() > 0 {
        v2.update(info_t, v2[info_t].insert(root_key, chain_roots(leaves, coins).last()))
    } else {
        v2
    }
}

/// Decode the commitment-append payload into its five fields.
fn merkle_decode(payload: &Vec<u8>) -> (r: Result<
    (u32, u32, Vec<u8>, Vec<u8>, Vec<MerkleNode>),
    ContractError,
>)
    ensures
        match r {
            Ok(t) => merkle_payload(payload@) == Some(
                ((t.0 as int), (t.1 as int), t.2@, t.3@, nodes_bytes(t.4@)),
            ),
            Err(e) => merkle_payload(payload@) is None && e == ContractError::InternalError,
        },
{
    let (hi32, p1) = match read_u32(payload, 0) {
        Some(t) => t,
        None => {
            return Err(ContractError::InternalError);
        },
    };
    let (hr32, p2) = match read_u32(payload, p1) {
        Some(t) => t,
        None => {
            return Err(ContractError::InternalError);
        },
    };
    let (root_key, p3) = match read_bytes(payload, p2) {
        Some(t) => t,
        None => {
            return Err(ContractError::InternalError);
        },
    };
    let (tree_key, p4) = match read_bytes(payload, p3) {
        Some(t) => t,
        None => {
            return Err(ContractError::InternalError);
        },
    };
    let (coins, p5) = match read_nodes(payload, p4) {
        Some(t) => t,
        None => {
            return Err(ContractError::InternalError);
        },
    };
    if p5 != payload.len() {
        return Err(ContractError::InternalError);
    }
    Ok((hi32, hr32, root_key, tree_key, coins))
}

/// Decode a stored commitment-tree value: its bookkeeping count and
/// its leaves.
fn tree_decode(stored: &Vec<u8>) -> (r: Result<(u32, Vec<MerkleNode>), ContractError>)
    ensures
        match r {
            Ok(t) => tree_value(stored@) == Some((t.0, nodes_bytes(t.1@))),
            Err(e) => tree_value(stored@) is None && e == ContractError::InternalError,
        },
{
    let (set_size, q1) = match read_u32(stored, 0) {
        Some(t) => t,
        None => {
            return Err(ContractError::InternalError);
        },
    };
    let (tree, q2) = match read_nodes(stored, q1) {
        Some(t) => t,
        None => {
            return Err(ContractError::InternalError);
        },
    };
    if q2 != stored.len() {
        return Err(ContractError::InternalError);
    }
    Ok((set_size, tree))
}

/// Append `coins` to the tree: the root recorded after each single
/// append, and the re-serialized tree with its count advanced.
#[verifier::loop_isolation(false)]
fn chain_and_serialize(tree: Vec<MerkleNode>, coins: &Vec<MerkleNode>, set_size: u32) -> (r: (
    Vec<MerkleNode>,
    Vec<u8>,
))
    requires
        set_size + coins@.len() <= u32::MAX,
        tree@.len() + coins@.len() <= u32::MAX,
    ensures
        r.0@.len() == coins@.len(),
        nodes_bytes(r.0@) == chain_roots(nodes_bytes(tree@), nodes_bytes(coins@)),
        r.1@ == u32_le((set_size + coins@.len()) as u32) + enc_nodes(
            nodes_bytes(tree@) + nodes_bytes(coins@),
        ),
{
    let ghost leaves_b = nodes_bytes(tree@);
    let ghost coins_b = nodes_bytes(coins@);
    let m = coins.len();
    let ct = CommitmentTree { leaves: tree };
    let mut acc = ct.root();
    let mut roots: Vec<MerkleNode> = Vec::new();
    let mut i: usize = 0;
    proof {
        assert(coins_b.take(0) =~= Seq::<Seq<u8>>::empty());
        assert(leaves_b + coins_b.take(0) =~= leaves_b);
        assert(nodes_bytes(roots@) =~= chain_roots(leaves_b, coins_b.take(0)));
    }
    while i < m
        invariant
            0 <= i <= m,
            acc@ == root_of(leaves_b + coins_b.take(i as int)),
            roots@.len() == i,
            nodes_bytes(roots@) == chain_roots(leaves_b, coins_b.take(i as int)),
        decreases m - i,
    {
        let c = vstd::std_specs::vec::vec_index(&coins, i);
        acc = append_root(&acc, c);
        roots.push(MerkleNode { bytes: acc });
        proof {
            let pre = coins_b.take(i as int);
            let now = coins_b.take(i as int + 1);
            assert(now.drop_last() =~= pre);
            assert(now.last() == coins@[i as int].bytes@);
            assert(leaves_b + now =~= (leaves_b + pre).push(coins@[i as int].bytes@));
            crate::commit::lemma_root_chain(leaves_b + pre, coins@[i as int].bytes@);
            assert(nodes_bytes(roots@) =~= chain_roots(leaves_b, pre).push(
                root_of(leaves_b + now),
            ));
        }
        i += 1;
    }
    proof {
        assert(coins_b.take(m as int) =~= coins_b);
    }
    let mut combined = ct.leaves;
    let mut i: usize = 0;
    proof {
        assert(nodes_bytes(combined@) =~= leaves_b + coins_b.take(0));
    }
    while i < m
        invariant
            0 <= i <= m,
            nodes_bytes(combined@) == leaves_b + coins_b.take(i as int),
            combined@.len() == leaves_b.len() + i,
        decreases m - i,
    {
        let ghost cpre = combined@;
        combined.push(*vstd::std_specs::vec::vec_index(&coins, i));
        proof {
            let pre = coins_b.take(i as int);
            let now = coins_b.take(i as int + 1);
            assert(combined@.last() == coins@[i as int]);
            assert forall|j: int|
                0 <= j < nodes_bytes(combined@).len() implies #[trigger] nodes_bytes(combined@)[j]
                == (leaves_b + now)[j] by {
                if j < leaves_b.len() + i {
                    assert(combined@[j] == cpre[j]);
                    assert(nodes_bytes(cpre)[j] == (leaves_b + pre)[j]);
                } else {
                    assert(combined@[j] == coins@[i as int]);
                    assert(now[j - leaves_b.len()] == coins_b[i as int]);
                }
            }
            assert(nodes_bytes(combined@) =~= leaves_b + now);
        }
        i += 1;
    }
    proof {
        assert(coins_b.take(m as int) =~= coins_b);
    }
    let mut newbytes: Vec<u8> = Vec::new();
    write_u32(&mut newbytes, set_size + (m as u32));
    write_nodes(&mut newbytes, &combined);
    proof {
        assert(newbytes@ =~= u32_le((set_size + coins_b.len()) as u32) + enc_nodes(
            leaves_b + coins_b,
        ));
    }
    (roots, newbytes)
}

/// Stage the writes of a successful append: the new tree value, every
/// new root, and — when anything was appended — the latest-root
/// pointer.
#[verifier::loop_isolation(false)]
fn merkle_stage(
    env: &mut HostEnv,
    info_t: usize,
    roots_t: usize,
    root_key: Vec<u8>,
    tree_key: Vec<u8>,
    newbytes: Vec<u8>,
    roots: &Vec<MerkleNode>,
)
    requires
        env_wf(*old(env)),
        info_t < store_view(old(env).overlay.base).len(),
        roots_t < store_view(old(env).overlay.base).len(),
    ensures
        env_wf(*final(env)),
        final(env).contract_id == old(env).contract_id,
        final(env).section == old(env).section,
        final(env).handles == old(env).handles,
        final(env).gas == old(env).gas,
        final(env).overlay.base == old(env).overlay.base,
        ({
            let v0 = overlay_view(old(env).overlay);
            let v1 = v0.update(info_t as int, v0[info_t as int].insert(tree_key@, newbytes@));
            let v2 = add_roots(v1, roots_t as int, nodes_bytes(roots@));
            overlay_view(final(env).overlay) == (if roots@.len() > 0 {
                v2.update(
                    info_t as int,
                    v2[info_t as int].insert(root_key@, nodes_bytes(roots@).last()),
                )
            } else {
                v2
            })
        }),
{
    let ghost e0 = *env;
    let ghost croots = nodes_bytes(roots@);
    proof {
        lemma_apply_log_len(store_view(env.overlay.base), env.overlay.log@);
    }
    env.overlay.insert(info_t, tree_key, newbytes);
    let ghost v1 = overlay_view(env.overlay);
    let m = roots.len();
    let mut i: usize = 0;
    proof {
        assert(croots.take(0) =~= Seq::<Seq<u8>>::empty());
        assert(add_roots(v1, roots_t as int, croots.take(0)) == v1);
        lemma_apply_log_len(store_view(env.overlay.base), env.overlay.log@);
        lemma_add_roots_len(v1, roots_t as int, croots);
    }
    while i < m
        invariant
            0 <= i <= m,
            env_wf(*env),
            env.overlay.base == e0.overlay.base,
            env.handles == e0.handles,
            env.contract_id == e0.contract_id,
            env.section == e0.section,
            env.gas == e0.gas,
            overlay_view(env.overlay) == add_roots(v1, roots_t as int, croots.take(i as int)),
        decreases m - i,
    {
        let rn = vstd::std_specs::vec::vec_index(&roots, i);
        let key = bytes32_to_vec(&rn.bytes);
        let empty: Vec<u8> = Vec::new();
        let ghost pre_view = overlay_view(env.overlay);
        proof {
            lemma_apply_log_len(store_view(env.overlay.base), env.overlay.log@);
        }
        env.overlay.insert(roots_t, key, empty);
        proof {
            assert(croots.take(i as int + 1).drop_last() =~= croots.take(i as int));
            assert(croots.take(i as int + 1).last() == croots[i as int]);
            assert(croots[i as int] == roots@[i as int].bytes@);
            assert(empty@ =~= Seq::<u8>::empty());
            lemma_add_roots_len(v1, roots_t as int, croots.take(i as int));
        }
        i += 1;
    }
    proof {
        assert(croots.take(m as int) =~= croots);
    }
    if m > 0 {
        let last = vstd::std_specs::vec::vec_index(&roots, m - 1);
        let ptr = bytes32_to_vec(&last.bytes);
        proof {
            lemma_apply_log_len(store_view(env.overlay.base), env.overlay.log@);
            lemma_add_roots_len(v1, roots_t as int, croots);
        }
        env.overlay.insert(info_t, root_key, ptr);
        proof {
            assert(croots.last() == roots@[m - 1].bytes@);
        }
    }
}

/// The cost charged up front for a commitment append: the bytes that
/// cross the call boundary in its wire form.
pub open spec fn merkle_call_cost(root_key: Seq<u8>, tree_key: Seq<u8>, coins: Seq<Seq<u8>>) -> int {
    20int + root_key.len() + tree_key.len() + 32 * coins.len()
}

/// The complete outcome of a commitment append against phase
/// `section`, executing contract `cid`, handle table `handles`, gas
/// `gas`, and staged view `v0`: the result, the remaining gas, and the
/// staged view afterwards.  Checked in this order: lifecycle phase,
/// up-front gas, handle ownership, the stored tree (present,
/// well-formed, small enough), realized gas; when everything holds the
/// staged view gains the re-serialized tree, every new root, and the
/// latest-root pointer.
pub open spec fn merkle_add_outcome(
    section: Section,
    cid: Seq<u8>,
    handles: Seq<DbHandle>,
    gas: int,
    v0: Seq<Map<Seq<u8>, Seq<u8>>>,
    hi: int,
    hr: int,
    root_key: Seq<u8>,
    tree_key: Seq<u8>,
    coins: Seq<Seq<u8>>,
) -> (Result<(), ContractError>, int, Seq<Map<Seq<u8>, Seq<u8>>>) {
    let cost = merkle_call_cost(root_key, tree_key, coins);
    if section != Section::Update {
        (Err(ContractError::AccessDenied), gas, v0)
    } else if cost > gas {
        (Err(ContractError::OutOfGas), 0, v0)
    } else {
        let gas1 = gas - cost;
        if !(0 <= hi < handles.len() && handles[hi].contract_id.bytes@ == cid && 0 <= hr
            < handles.len() && handles[hr].contract_id.bytes@ == cid) {
            (Err(ContractError::AccessDenied), gas1, v0)
        } else {
            let info_t = handles[hi].table as int;
            let roots_t = handles[hr].table as int;
            if !v0[info_t].contains_key(tree_key) {
                (Err(ContractError::InternalError), gas1, v0)
            } else {
                match tree_value(v0[info_t][tree_key]) {
                    None => (Err(ContractError::InternalError), gas1, v0),
                    Some(tv) => {
                        let set_size = tv.0;
                        let leaves = tv.1;
                        if set_size + coins.len() > u32::MAX || leaves.len() + coins.len()
                            > u32::MAX {
                            (Err(ContractError::InternalError), gas1, v0)
                        } else {
                            let newbytes = u32_le((set_size + coins.len()) as u32) + enc_nodes(
                                leaves + coins,
                            );
                            let spent = v0[info_t][tree_key].len() + newbytes.len() + 32
                                * coins.len();
                            if spent > gas1 {
                                (Err(ContractError::OutOfGas), 0, v0)
                            } else {
                                (
                                    Ok(()),
                                    gas1 - spent,
                                    merkle_add_result(
                                        v0,
                                        info_t,
                                        roots_t,
                                        root_key,
                                        tree_key,
                                        set_size,
                                        leaves,
                                        coins,
                                    ),
                                )
                            }
                        }
                    },
                }
            }
        }
    }
}

/// Append `coins` to the commitment tree stored under `tree_key` of
/// handle `hi`, recording the root produced after each single append in
/// the table of handle `hr`, and moving the latest-root pointer under
/// `root_key`.  Allowed only in the `Update` phase; both handles must
/// be owned by the executing contract; gas is charged up front for the
/// call's wire size and afterwards for the bytes moved.  Any failure —
/// wrong phase, gas, a missing or malformed stored tree, a foreign
/// handle — stages nothing: the store is left byte-identical.
#[verifier::loop_isolation(false)]
#[verifier::rlimit(100)]
pub fn merkle_add(
    env: &mut HostEnv,
    hi: usize,
    hr: usize,
    root_key: Vec<u8>,
    tree_key: Vec<u8>,
    coins: &Vec<MerkleNode>,
) -> (r: Result<(), ContractError>)
    requires
        env_wf(*old(env)),
    ensures
        env_wf(*final(env)),
        final(env).contract_id == old(env).contract_id,
        final(env).section == old(env).section,
        final(env).handles == old(env).handles,
        final(env).overlay.base == old(env).overlay.base,
        ({
            let out = merkle_add_outcome(
                old(env).section,
                old(env).contract_id.bytes@,
                old(env).handles@,
                old(env).gas.remaining as int,
                overlay_view(old(env).overlay),
                hi as int,
                hr as int,
                root_key@,
                tree_key@,
                nodes_bytes(coins@),
            );
            r == out.0 && final(env).gas.remaining == out.1 && overlay_view(final(env).overlay)
                == out.2
        }),
        r is Err ==> final(env).overlay == old(env).overlay,
{
    let ghost e0 = *env;
    let ghost v0 = overlay_view(env.overlay);
    let ghost coins_b = nodes_bytes(coins@);
    proof {
        lemma_apply_log_len(store_view(env.overlay.base), env.overlay.log@);
    }
    // Phase gate: the commitment tree may only change while updates are
    // being applied.
    if !matches!(env.section, Section::Update) {
        return Err(ContractError::AccessDenied);
    }
    // Fixed cost, charged up front: the bytes crossing the boundary.
    let m = coins.len();
    let cost128: u128 = 20u128 + (root_key.len() as u128) + (tree_key.len() as u128) + 32u128 * (
    m as u128);
    if cost128 > (env.gas.remaining as u128) {
        env.gas.remaining = 0;
        return Err(ContractError::OutOfGas);
    }
    match env.gas.charge(cost128 as u64) {
        Ok(_) => (),
        Err(_) => {
            proof {
                assert(false);
            }
            return Err(ContractError::InternalError);
        },
    }
    // Resolve both handles and make sure the contract owns them.
    if hi >= env.handles.len() || hr >= env.handles.len() {
        return Err(ContractError::AccessDenied);
    }
    let hinfo = vstd::std_specs::vec::vec_index(&env.handles, hi);
    let hroots = vstd::std_specs::vec::vec_index(&env.handles, hr);
    if !id_eq(&hinfo.contract_id, &env.contract_id) || !id_eq(&hroots.contract_id, &env.contract_id)
    {
        return Err(ContractError::AccessDenied);
    }
    let info_t = hinfo.table;
    let roots_t = hroots.table;
    // Load and decode the stored tree.
    let stored = match env.overlay.get(info_t, &tree_key) {
        Some(v) => crate::types::copy_bytes(v),
        None => {
            return Err(ContractError::InternalError);
        },
    };
    let (set_size, tree) = match tree_decode(&stored) {
        Ok(t) => t,
        Err(e) => {
            return Err(e);
        },
    };
    if (set_size as u128) + (m as u128) > 0xffff_ffff || (tree.len() as u128) + (m as u128)
        > 0xffff_ffff {
        return Err(ContractError::InternalError);
    }
    let ghost leaves_b = nodes_bytes(tree@);
    // Append each leaf, recording the root after every single append,
    // and re-serialize the tree.
    let (roots, newbytes) = chain_and_serialize(tree, coins, set_size);
    // Realized cost: the tree read, the tree written, the roots written.
    let spent128: u128 = (stored.len() as u128) + (newbytes.len() as u128) + 32u128 * (m as u128);
    if spent128 > (env.gas.remaining as u128) {
        env.gas.remaining = 0;
        return Err(ContractError::OutOfGas);
    }
    match env.gas.charge(spent128 as u64) {
        Ok(_) => (),
        Err(_) => {
            proof {
                assert(false);
            }
            return Err(ContractError::InternalError);
        },
    }
    // Stage the writes: the new tree, every new root, the pointer.
    merkle_stage(env, info_t, roots_t, root_key, tree_key, newbytes, &roots);
    Ok(())
}

/// The wire form of the commitment append, as call code submits it: the
/// payload decodes into the two handle indexes, the two keys, and the
/// leaves, and the whole call then behaves as [`merkle_add`].  A
/// payload that does not decode fails with `InternalError`, after the
/// phase gate and before anything else.
pub fn merkle_add_wire(env: &mut HostEnv, payload: &Vec<u8>) -> (r: Result<(), ContractError>)
    requires
        env_wf(*old(env)),
    ensures
        env_wf(*final(env)),
        final(env).contract_id == old(env).contract_id,
        final(env).section == old(env).section,
        final(env).handles == old(env).handles,
        final(env).overlay.base == old(env).overlay.base,
        ({
            let e0 = *old(env);
            if e0.section != Section::Update {
                r == Err::<(), ContractError>(ContractError::AccessDenied) && *final(env) == e0
            } else {
                match merkle_payload(payload@) {
                    None => r == Err::<(), ContractError>(ContractError::InternalError) && *final(env) == e0,
                    Some(pl) => {
                        let out = merkle_add_outcome(
                            e0.section,
                            e0.contract_id.bytes@,
                            e0.handles@,
                            e0.gas.remaining as int,
                            overlay_view(e0.overlay),
                            pl.0,
                            pl.1,
                            pl.2,
                            pl.3,
                            pl.4,
                        );
                        r == out.0 && final(env).gas.remaining == out.1 && overlay_view(
                            final(env).overlay,
                        ) == out.2
                    },
                }
            }
        }),
        r is Err ==> final(env).overlay == old(env).overlay,
{
    if !matches!(env.section, Section::Update) {
        return Err(ContractError::AccessDenied);
    }
    let (hi32, hr32, root_key, tree_key, coins) = match merkle_decode(payload) {
        Ok(t) => t,
        Err(e) => {
            return Err(e);
        },
    };
    merkle_add(env, hi32 as usize, hr32 as usize, root_key, tree_key, &coins)
}

/// Law: a stored tree value serialized by the append primitive decodes
/// back to its count and leaves — so a later append finds exactly the
/// tree an earlier one left.
pub proof fn lemma_tree_value_round_trip(set_size: u32, leaves: Seq<Seq<u8>>)
    requires
        leaves.len() <= u32::MAX,
        forall|j: int| 0 <= j < leaves.len() ==> (#[trigger] leaves[j]).len() == 32,
    ensures
        tree_value(u32_le(set_size) + enc_nodes(leaves)) == Some((set_size, leaves)),
{
    let full = u32_le(set_size) + enc_nodes(leaves);
    assert(full.subrange(0, 4) =~= u32_le(set_size));
    crate::codec::lemma_u32_le_round_trip(set_size);
    assert(parse_u32(full, 0) == Some((set_size, 4int)));
    assert(full =~= u32_le(set_size) + enc_nodes(leaves) + Seq::<u8>::empty());
    crate::codec::lemma_parse_nodes_round_trip(
        u32_le(set_size),
        leaves,
        Seq::<u8>::empty(),
    );
    crate::codec::lemma_u32_le_round_trip(set_size);
    assert(parse_nodes(full, 4) == Some((leaves, (8 + 32 * leaves.len()) as int)));
    crate::codec::lemma_enc_nodes_body_len(leaves);
    assert(full.len() == 8 + 32 * leaves.len());
}

} // verus!

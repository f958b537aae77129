//! The transition protocol driver: run one transaction's call tree
//! through the four lifecycle phases and commit its combined effect
//! atomically.
//!
//! Phases run globally, each completing for the whole tree before the
//! next begins: derive metadata (read-only), verify proofs and
//! signatures, validate and derive updates (post-order, reading the
//! overlay), apply updates (post-order, staging writes).  Any failure
//! in phases one to three discards the overlay: nothing persists.  A
//! phase-four failure means validation and application have diverged;
//! it is surfaced as an error after this call's staged contribution is
//! discarded, and the transaction as a whole leaves the store
//! untouched.

use vstd::prelude::*;

use crate::bridge::{DbHandle, GasMeter, HostEnv, Section};
use crate::calltree::{leaf_models, valid_flat, DarkLeaf, DarkTree};
use crate::contract::{
    consensus_unstake_request_get_metadata_v1, consensus_unstake_request_process_instruction_v1,
    consensus_unstake_request_process_update_v1, params_len_ok, unstake_metadata, ContractCall,
    p_sig_public,
};
use crate::errors::ContractError;
use crate::metadata::{
    lead_proof_attests, signature_bytes, verify_signature, LeadProof, Signature, VerifyingKey,
};
use crate::store::{overlay_view, store_view, Overlay, Store};
use crate::types::copy_range;

verus! {

/// One transaction: the flattened call tree, and one proof and one
/// signature per call, aligned by index.
#[derive(Debug, Clone, PartialEq)]
pub struct Transaction {
    /// The calls, in flattened post-order wire form.
    pub calls: Vec<DarkLeaf<ContractCall>>,
    /// Per call, the proof over its derived metadata.
    pub proofs: Vec<LeadProof>,
    /// Per call, the signature over its derived metadata.
    pub signatures: Vec<Signature>,
}

/// The first phase-one failure: the lowest call index whose
/// parameters do not decode.
pub open spec fn phase1_failure(calls: Seq<DarkLeaf<ContractCall>>, i: int) -> Option<
    (int, ContractError),
>
    decreases calls.len() - i,
{
    if i >= calls.len() {
        None
    } else if !params_len_ok(calls[i].data.data@) {
        Some((i, ContractError::InternalError))
    } else {
        phase1_failure(calls, i + 1)
    }
}

/// The first phase-two failure: the lowest call index whose proof or
/// signature does not attest its derived metadata.
pub open spec fn phase2_failure(
    calls: Seq<DarkLeaf<ContractCall>>,
    proofs: Seq<LeadProof>,
    sigs: Seq<Signature>,
    vkkey: Seq<u8>,
    i: int,
) -> Option<(int, ContractError)>
    decreases calls.len() - i,
{
    if i >= calls.len() {
        None
    } else if proofs[i].proof@ != lead_proof_attests(
        vkkey,
        unstake_metadata(calls[i].data.data@),
    ) {
        Some((i, ContractError::InvalidProof))
    } else if sigs[i].bytes@ != signature_bytes(
        p_sig_public(calls[i].data.data@),
        unstake_metadata(calls[i].data.data@),
    ) {
        Some((i, ContractError::InvalidSignature))
    } else {
        phase2_failure(calls, proofs, sigs, vkkey, i + 1)
    }
}

/// Phase three over the whole tree, in post-order: each call validated
/// against the same pre-transaction view, gas threading through; the
/// update records on success, or the first failing call.
pub open spec fn phase3_run(
    handles: Seq<crate::bridge::DbHandle>,
    calls: Seq<DarkLeaf<ContractCall>>,
    v0: Seq<Map<Seq<u8>, Seq<u8>>>,
    epoch: u64,
    gas: int,
    i: int,
) -> Result<(Seq<Seq<u8>>, int), (int, ContractError)>
    decreases calls.len() - i,
{
    if i >= calls.len() {
        Ok((Seq::empty(), gas))
    } else {
        let c = calls[i].data.contract_id;
        let out = crate::contract::unstake_instruction_outcome(
            handles,
            c,
            gas,
            v0,
            c,
            calls[i].data.data@,
            epoch,
        );
        match out.0 {
            Ok(u) => match phase3_run(handles, calls, v0, epoch, out.1, i + 1) {
                Ok(t) => Ok((seq![u] + t.0, t.1)),
                Err(e) => Err(e),
            },
            Err(e) => Err((i, e)),
        }
    }
}

/// Phase four over the whole tree, in post-order: each update applied
/// to the staged view the previous calls left, gas threading through;
/// the final staged view on success, or the first failing call.
pub open spec fn phase4_run(
    handles: Seq<crate::bridge::DbHandle>,
    calls: Seq<DarkLeaf<ContractCall>>,
    updates: Seq<Seq<u8>>,
    v: Seq<Map<Seq<u8>, Seq<u8>>>,
    gas: int,
    i: int,
) -> Result<(Seq<Map<Seq<u8>, Seq<u8>>>, int), (int, ContractError)>
    decreases calls.len() - i,
{
    if i >= calls.len() {
        Ok((v, gas))
    } else {
        let c = calls[i].data.contract_id;
        let out = crate::contract::unstake_update_outcome(
            Section::Update,
            handles,
            c,
            gas,
            v,
            c,
            updates[i],
        );
        match out.0 {
            Ok(_) => phase4_run(handles, calls, updates, out.2, out.1, i + 1),
            Err(e) => Err((i, e)),
        }
    }
}

/// The complete outcome of one transaction against the store view
/// `v0`: either the committed view, or the failing call and reason —
/// checked in protocol order: the wire form and the proof and
/// signature counts, then phase one, two, three and four.
pub open spec fn transaction_outcome(
    tx: Transaction,
    v0: Seq<Map<Seq<u8>, Seq<u8>>>,
    handles: Seq<crate::bridge::DbHandle>,
    vkkey: Seq<u8>,
    epoch: u64,
    budget: u64,
) -> Result<Seq<Map<Seq<u8>, Seq<u8>>>, (int, ContractError)> {
    let n = tx.calls@.len();
    if !valid_flat(leaf_models(tx.calls@)) {
        Err((0, ContractError::MalformedCallTree))
    } else if tx.proofs@.len() != n || tx.signatures@.len() != n {
        Err((0, ContractError::MalformedCallTree))
    } else if n > 0xffff_ffff {
        Err((0, ContractError::MalformedCallTree))
    } else {
        match phase1_failure(tx.calls@, 0) {
            Some(e) => Err(e),
            None => match phase2_failure(tx.calls@, tx.proofs@, tx.signatures@, vkkey, 0) {
                Some(e) => Err(e),
                None => match phase3_run(handles, tx.calls@, v0, epoch, budget as int, 0) {
                    Err(e) => Err(e),
                    Ok(t3) => match phase4_run(handles, tx.calls@, t3.0, v0, t3.1, 0) {
                        Err(e) => Err(e),
                        Ok(t4) => Ok(t4.0),
                    },
                },
            },
        }
    }
}

/// Run one transaction against `store` and commit or discard its whole
/// effect, exactly as [`transaction_outcome`] describes: on any error
/// the returned store is the input store, byte-identical, with the
/// failing call's index attached to the reason; on success the
/// returned store holds precisely the staged view every phase built.
#[verifier::loop_isolation(false)]
#[verifier::rlimit(100)]
pub fn run_transaction(
    tx: &Transaction,
    store: Store,
    handles: Vec<DbHandle>,
    vk: &VerifyingKey,
    verifying_epoch: u64,
    gas_budget: u64,
) -> (r: (Store, Result<(), (usize, ContractError)>))
    requires
        forall|h: int|
            0 <= h < handles@.len() ==> (#[trigger] handles@[h].table) < store_view(store).len(),
        vk.key@.len() <= u32::MAX,
    ensures
        r.1 is Err ==> r.0 == store,
        ({
            let out = transaction_outcome(
                *tx,
                store_view(store),
                handles@,
                vk.key@,
                verifying_epoch,
                gas_budget,
            );
            match out {
                Ok(v) => r.1 is Ok && store_view(r.0) == v,
                Err(ie) => (r.1 matches Err(e2) && e2.0 as int == ie.0 && e2.1 == ie.1),
            }
        }),
{
    let ghost v0 = store_view(store);
    let ghost handles0 = handles@;
    let n = tx.calls.len();
    // The wire form must validate before any of it is trusted.
    match DarkTree::validate(&tx.calls) {
        Ok(_) => (),
        Err(e) => {
            return (store, Err((0, e)));
        },
    }
    if tx.proofs.len() != n || tx.signatures.len() != n {
        return (store, Err((0, ContractError::MalformedCallTree)));
    }
    // Machine limit: call indexes travel as 32-bit values.
    if n > 0xffff_ffff {
        return (store, Err((0, ContractError::MalformedCallTree)));
    }
    // Phase one: derive every call's metadata.  Read-only; no call has
    // any cross-call dependency here.
    let mut mds: Vec<Vec<u8>> = Vec::new();
    let mut i: usize = 0;
    while i < n
        invariant
            0 <= i <= n,
            mds@.len() == i,
            phase1_failure(tx.calls@, 0) == phase1_failure(tx.calls@, i as int),
            forall|j: int|
                0 <= j < i ==> params_len_ok((#[trigger] tx.calls@[j]).data.data@) && mds@[j]@
                    == unstake_metadata(tx.calls@[j].data.data@),
        decreases n - i,
    {
        let cid = vstd::std_specs::vec::vec_index(&tx.calls, i).data.contract_id;
        let ghost mpre = mds@;
        match consensus_unstake_request_get_metadata_v1(&cid, i as u32, &tx.calls) {
            Ok(md) => {
                mds.push(md);
            },
            Err(e) => {
                proof {
                    assert(phase1_failure(tx.calls@, i as int) == Some(
                        (i as int, ContractError::InternalError),
                    ));
                }
                return (store, Err((i, e)));
            },
        }
        proof {
            assert forall|j: int|
                0 <= j < i + 1 implies params_len_ok((#[trigger] tx.calls@[j]).data.data@)
                && mds@[j]@ == unstake_metadata(tx.calls@[j].data.data@) by {
                if j < i {
                    assert(mds@[j] == mpre[j]);
                }
            }
        }
        i += 1;
    }
    // Phase two: check every call's proof and signature against its
    // metadata.
    let mut i: usize = 0;
    while i < n
        invariant
            0 <= i <= n,
            phase2_failure(tx.calls@, tx.proofs@, tx.signatures@, vk.key@, 0) == phase2_failure(
                tx.calls@,
                tx.proofs@,
                tx.signatures@,
                vk.key@,
                i as int,
            ),
        decreases n - i,
    {
        let md = vstd::std_specs::vec::vec_index(&mds, i);
        match vstd::std_specs::vec::vec_index(&tx.proofs, i).verify_msg(vk, md) {
            Ok(_) => (),
            Err(_) => {
                return (store, Err((i, ContractError::InvalidProof)));
            },
        }
        let sig_public = copy_range(md, 41, 73);
        proof {
            crate::contract::lemma_metadata_sig_public(tx.calls@[i as int].data.data@);
        }
        if !verify_signature(&sig_public, md, vstd::std_specs::vec::vec_index(&tx.signatures, i)) {
            return (store, Err((i, ContractError::InvalidSignature)));
        }
        i += 1;
    }
    // Phases three and four share one environment: the overlay and the
    // gas meter are exclusively the transaction's.
    let ghost store0 = store;
    // A validated sequence is never empty: its last record is the root.
    proof {
        assert(tx.calls@.len() >= 1);
    }
    let first_cid = vstd::std_specs::vec::vec_index(&tx.calls, 0).data.contract_id;
    let mut env = HostEnv {
        contract_id: first_cid,
        section: Section::Instruction,
        handles,
        overlay: Overlay::new(store),
        gas: GasMeter { remaining: gas_budget },
    };
    proof {
        assert(crate::bridge::env_wf(env));
        assert(overlay_view(env.overlay) == v0);
    }
    // Phase three: validate each call in post-order and derive its
    // update record.  Reads the overlay, stages nothing.
    let mut updates: Vec<Vec<u8>> = Vec::new();
    let mut i: usize = 0;
    while i < n
        invariant
            0 <= i <= n,
            updates@.len() == i,
            crate::bridge::env_wf(env),
            env.overlay.base == store0,
            env.handles@ == handles0,
            env.overlay.log@ == Seq::<crate::store::StagedWrite>::empty(),
            (match phase3_run(
                handles0,
                tx.calls@,
                v0,
                verifying_epoch,
                env.gas.remaining as int,
                i as int,
            ) {
                Ok(t) => phase3_run(
                    handles0,
                    tx.calls@,
                    v0,
                    verifying_epoch,
                    gas_budget as int,
                    0,
                ) == Ok::<(Seq<Seq<u8>>, int), (int, ContractError)>(
                    (updates@.map_values(|u: Vec<u8>| u@) + t.0, t.1),
                ),
                Err(e) => phase3_run(
                    handles0,
                    tx.calls@,
                    v0,
                    verifying_epoch,
                    gas_budget as int,
                    0,
                ) == Err::<(Seq<Seq<u8>>, int), (int, ContractError)>(e),
            }),
        decreases n - i,
    {
        let cid = vstd::std_specs::vec::vec_index(&tx.calls, i).data.contract_id;
        env.contract_id = cid;
        env.section = Section::Instruction;
        let ghost upre = updates@.map_values(|u: Vec<u8>| u@);
        let ghost gas_in = env.gas.remaining as int;
        match consensus_unstake_request_process_instruction_v1(
            &cid,
            i as u32,
            &tx.calls,
            &mut env,
            verifying_epoch,
        ) {
            Ok(u) => {
                let ghost uv = u@;
                updates.push(u);
                proof {
                    assert(updates@.map_values(|u2: Vec<u8>| u2@) =~= upre.push(uv));
                    assert(upre.push(uv) + (match phase3_run(
                        handles0,
                        tx.calls@,
                        v0,
                        verifying_epoch,
                        env.gas.remaining as int,
                        i as int + 1,
                    ) {
                        Ok(t) => t.0,
                        Err(_) => Seq::empty(),
                    }) =~= upre + (seq![uv] + (match phase3_run(
                        handles0,
                        tx.calls@,
                        v0,
                        verifying_epoch,
                        env.gas.remaining as int,
                        i as int + 1,
                    ) {
                        Ok(t) => t.0,
                        Err(_) => Seq::empty(),
                    })));
                }
            },
            Err(e) => {
                proof {
                    assert(phase3_run(
                        handles0,
                        tx.calls@,
                        v0,
                        verifying_epoch,
                        gas_in,
                        i as int,
                    ) == Err::<(Seq<Seq<u8>>, int), (int, ContractError)>((i as int, e)));
                }
                // Abort the whole transaction: discard the overlay.
                let s = env.overlay.discard();
                return (s, Err((i, e)));
            },
        }
        i += 1;
    }
    // Phase four: apply each update in post-order, children before
    // parents, staging writes in the overlay.  A failure here means
    // validation and application diverged: surface it after the whole
    // overlay — this call's staged contribution included — is
    // discarded.
    let ghost updates_v = updates@.map_values(|u: Vec<u8>| u@);
    let ghost gas3 = env.gas.remaining as int;
    let mut i: usize = 0;
    while i < n
        invariant
            0 <= i <= n,
            crate::bridge::env_wf(env),
            env.overlay.base == store0,
            env.handles@ == handles0,
            updates@.map_values(|u: Vec<u8>| u@) == updates_v,
            phase4_run(handles0, tx.calls@, updates_v, v0, gas3, 0) == phase4_run(
                handles0,
                tx.calls@,
                updates_v,
                overlay_view(env.overlay),
                env.gas.remaining as int,
                i as int,
            ),
        decreases n - i,
    {
        let cid = vstd::std_specs::vec::vec_index(&tx.calls, i).data.contract_id;
        env.contract_id = cid;
        env.section = Section::Update;
        let ghost vin = overlay_view(env.overlay);
        let ghost gas_in = env.gas.remaining as int;
        match consensus_unstake_request_process_update_v1(
            &cid,
            &mut env,
            vstd::std_specs::vec::vec_index(&updates, i),
        ) {
            Ok(_) => {
                proof {
                    assert(updates_v[i as int] == updates@[i as int]@);
                }
            },
            Err(e) => {
                proof {
                    assert(updates_v[i as int] == updates@[i as int]@);
                    assert(phase4_run(handles0, tx.calls@, updates_v, vin, gas_in, i as int)
                        == Err::<(Seq<Map<Seq<u8>, Seq<u8>>>, int), (int, ContractError)>(
                        (i as int, e),
                    ));
                }
                let s = env.overlay.discard();
                return (s, Err((i, e)));
            },
        }
        i += 1;
    }
    // Every call passed every phase: promote the overlay.
    proof {
        crate::store::lemma_apply_log_len(store_view(env.overlay.base), env.overlay.log@);
    }
    let committed = env.overlay.commit();
    (committed, Ok(()))
}

/// A call-tree link as four wire bytes; no-link is the sentinel of all
/// ones, so linkable indexes stay below it.
pub open spec fn enc_opt_idx(p: Option<usize>) -> Seq<u8> {
    match p {
        None => crate::codec::u32_le(0xffff_ffffu32),
        Some(v) => crate::codec::u32_le(v as u32),
    }
}

/// A child list as wire bytes: the count, then each index.
pub open spec fn enc_idx_body(l: Seq<usize>) -> Seq<u8>
    decreases l.len(),
{
    if l.len() == 0 {
        Seq::empty()
    } else {
        enc_idx_body(l.drop_last()) + crate::codec::u32_le(l.last() as u32)
    }
}

pub open spec fn enc_idx_list(l: Seq<usize>) -> Seq<u8> {
    crate::codec::u32_le(l.len() as u32) + enc_idx_body(l)
}

/// One call record as wire bytes: the contract, the length-prefixed
/// call data, the parent link, the child list.
pub open spec fn enc_call(c: DarkLeaf<ContractCall>) -> Seq<u8> {
    c.data.contract_id.bytes@ + crate::codec::enc_bytes(c.data.data@) + enc_opt_idx(c.parent_index)
        + enc_idx_list(c.children_indexes@)
}

/// The flattened call sequence as wire bytes.
pub open spec fn enc_calls_body(calls: Seq<DarkLeaf<ContractCall>>) -> Seq<u8>
    decreases calls.len(),
{
    if calls.len() == 0 {
        Seq::empty()
    } else {
        enc_calls_body(calls.drop_last()) + enc_call(calls.last())
    }
}

/// A list of byte strings as wire bytes: the count, then each string
/// length-prefixed.
pub open spec fn enc_blob_body(bs: Seq<Seq<u8>>) -> Seq<u8>
    decreases bs.len(),
{
    if bs.len() == 0 {
        Seq::empty()
    } else {
        enc_blob_body(bs.drop_last()) + crate::codec::enc_bytes(bs.last())
    }
}

/// The whole transaction as wire bytes: calls, proofs, signatures,
/// each as a counted list.
pub open spec fn tx_bytes(t: Transaction) -> Seq<u8> {
    crate::codec::u32_le(t.calls@.len() as u32) + enc_calls_body(t.calls@) + crate::codec::u32_le(
        t.proofs@.len() as u32,
    ) + enc_blob_body(t.proofs@.map_values(|p: LeadProof| p.proof@)) + crate::codec::u32_le(
        t.signatures@.len() as u32,
    ) + enc_blob_body(t.signatures@.map_values(|sg: Signature| sg.bytes@))
}

/// Machine limits under which the transaction fits its wire form.
pub open spec fn tx_encodable(t: Transaction) -> bool {
    &&& t.calls@.len() <= u32::MAX
    &&& t.proofs@.len() <= u32::MAX
    &&& t.signatures@.len() <= u32::MAX
    &&& forall|i: int|
        0 <= i < t.calls@.len() ==> {
            let c = #[trigger] t.calls@[i];
            &&& c.data.data@.len() <= u32::MAX
            &&& c.children_indexes@.len() <= u32::MAX
            &&& (c.parent_index matches Some(p) ==> p < 0xffff_ffff)
            &&& forall|k: int|
                0 <= k < c.children_indexes@.len() ==> (#[trigger] c.children_indexes@[k])
                    <= u32::MAX
        }
    &&& forall|i: int| 0 <= i < t.proofs@.len() ==> (#[trigger] t.proofs@[i]).proof@.len()
        <= u32::MAX
    &&& forall|i: int|
        0 <= i < t.signatures@.len() ==> (#[trigger] t.signatures@[i]).bytes@.len() <= u32::MAX
}

impl Transaction {
    /// The transaction's wire bytes.
    #[verifier::loop_isolation(false)]
    pub fn encode(&self) -> (r: Vec<u8>)
        requires
            tx_encodable(*self),
        ensures
            r@ == tx_bytes(*self),
    {
        let mut out: Vec<u8> = Vec::new();
        crate::codec::write_u32(&mut out, self.calls.len() as u32);
        let ghost m0 = out@;
        let mut i: usize = 0;
        proof {
            assert(self.calls@.take(0) =~= Seq::<DarkLeaf<ContractCall>>::empty());
            assert(out@ =~= m0 + enc_calls_body(self.calls@.take(0)));
        }
        while i < self.calls.len()
            invariant
                0 <= i <= self.calls@.len(),
                out@ == m0 + enc_calls_body(self.calls@.take(i as int)),
            decreases self.calls.len() - i,
        {
            let c = vstd::std_specs::vec::vec_index(&self.calls, i);
            let ghost pre = out@;
            crate::codec::write_node(
                &mut out,
                &crate::types::MerkleNode { bytes: c.data.contract_id.bytes },
            );
            crate::codec::write_bytes(&mut out, &c.data.data);
            match c.parent_index {
                None => crate::codec::write_u32(&mut out, 0xffff_ffffu32),
                Some(p) => crate::codec::write_u32(&mut out, p as u32),
            }
            crate::codec::write_u32(&mut out, c.children_indexes.len() as u32);
            let ghost mid = out@;
            let mut k: usize = 0;
            proof {
                assert(c.children_indexes@.take(0) =~= Seq::<usize>::empty());
                assert(out@ =~= mid + enc_idx_body(c.children_indexes@.take(0)));
            }
            while k < c.children_indexes.len()
                invariant
                    0 <= k <= c.children_indexes@.len(),
                    out@ == mid + enc_idx_body(c.children_indexes@.take(k as int)),
                decreases c.children_indexes.len() - k,
            {
                crate::codec::write_u32(
                    &mut out,
                    (*vstd::std_specs::vec::vec_index(&c.children_indexes, k)) as u32,
                );
                proof {
                    assert(c.children_indexes@.take(k as int + 1).drop_last()
                        =~= c.children_indexes@.take(k as int));
                    assert(c.children_indexes@.take(k as int + 1).last()
                        == c.children_indexes@[k as int]);
                    assert(out@ =~= mid + enc_idx_body(c.children_indexes@.take(k as int + 1)));
                }
                k += 1;
            }
            proof {
                assert(c.children_indexes@.take(c.children_indexes@.len() as int)
                    =~= c.children_indexes@);
                assert(self.calls@.take(i as int + 1).drop_last() =~= self.calls@.take(i as int));
                assert(self.calls@.take(i as int + 1).last() == self.calls@[i as int]);
                assert(out@ =~= pre + enc_call(self.calls@[i as int]));
                assert(out@ =~= m0 + enc_calls_body(self.calls@.take(i as int + 1)));
            }
            i += 1;
        }
        proof {
            assert(self.calls@.take(self.calls@.len() as int) =~= self.calls@);
        }
        crate::codec::write_u32(&mut out, self.proofs.len() as u32);
        let ghost p0 = out@;
        let ghost pviews = self.proofs@.map_values(|p: LeadProof| p.proof@);
        let mut i: usize = 0;
        proof {
            assert(pviews.take(0) =~= Seq::<Seq<u8>>::empty());
            assert(out@ =~= p0 + enc_blob_body(pviews.take(0)));
        }
        while i < self.proofs.len()
            invariant
                0 <= i <= self.proofs@.len(),
                out@ == p0 + enc_blob_body(pviews.take(i as int)),
            decreases self.proofs.len() - i,
        {
            crate::codec::write_bytes(
                &mut out,
                &vstd::std_specs::vec::vec_index(&self.proofs, i).proof,
            );
            proof {
                assert(pviews.take(i as int + 1).drop_last() =~= pviews.take(i as int));
                assert(pviews.take(i as int + 1).last() == self.proofs@[i as int].proof@);
                assert(out@ =~= p0 + enc_blob_body(pviews.take(i as int + 1)));
            }
            i += 1;
        }
        proof {
            assert(pviews.take(pviews.len() as int) =~= pviews);
        }
        crate::codec::write_u32(&mut out, self.signatures.len() as u32);
        let ghost s0 = out@;
        let ghost sviews = self.signatures@.map_values(|sg: Signature| sg.bytes@);
        let mut i: usize = 0;
        proof {
            assert(sviews.take(0) =~= Seq::<Seq<u8>>::empty());
            assert(out@ =~= s0 + enc_blob_body(sviews.take(0)));
        }
        while i < self.signatures.len()
            invariant
                0 <= i <= self.signatures@.len(),
                out@ == s0 + enc_blob_body(sviews.take(i as int)),
            decreases self.signatures.len() - i,
        {
            crate::codec::write_bytes(
                &mut out,
                &vstd::std_specs::vec::vec_index(&self.signatures, i).bytes,
            );
            proof {
                assert(sviews.take(i as int + 1).drop_last() =~= sviews.take(i as int));
                assert(sviews.take(i as int + 1).last() == self.signatures@[i as int].bytes@);
                assert(out@ =~= s0 + enc_blob_body(sviews.take(i as int + 1)));
            }
            i += 1;
        }
        proof {
            assert(sviews.take(sviews.len() as int) =~= sviews);
            assert(out@ =~= tx_bytes(*self));
        }
        out
    }

    /// The base58 text a node broadcasts for this transaction.
    pub fn broadcast_string(&self) -> (r: String)
        requires
            tx_encodable(*self),
        ensures
            r@ == crate::base58::base58_of(tx_bytes(*self)),
    {
        let encoded = self.encode();
        crate::base58::base58_string(&encoded)
    }
}

} // verus!

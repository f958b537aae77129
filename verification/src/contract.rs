//! One contract's lifecycle entrypoints, modeled over plain values: the
//! unstake-request state transition.  Phase by phase: derive the public
//! inputs for proof and signature checks, validate against current
//! state and produce an update record, and apply that record — the new
//! nullifier, the new coin, and the commitment-tree append.

use vstd::prelude::*;

use crate::bridge::{
    db_contains_key, db_lookup, db_set, env_wf, lookup_spec, merkle_add, merkle_add_outcome,
    HostEnv, Section,
};
use crate::calltree::DarkLeaf;
use crate::codec::{read_node, read_u64, u64_le, u64_of_le, write_u64};
use crate::errors::ContractError;
use crate::store::overlay_view;
use crate::types::{copy_range, ContractId, MerkleNode};

verus! {

/// Function selector of the unstake-request call.
pub const UNSTAKE_REQUEST_FN: u8 = 1;

/// Namespace names of the consensus contract, one byte each.
pub const CONSENSUS_CONTRACT_INFO_TREE: u8 = 0;

pub const CONSENSUS_CONTRACT_NULLIFIERS_TREE: u8 = 1;

pub const CONSENSUS_CONTRACT_UNSTAKED_COINS_TREE: u8 = 2;

pub const CONSENSUS_CONTRACT_STAKED_COIN_ROOTS_TREE: u8 = 3;

pub const CONSENSUS_CONTRACT_UNSTAKED_COIN_ROOTS_TREE: u8 = 4;

/// Keys inside the info namespace.
pub const CONSENSUS_CONTRACT_UNSTAKED_COIN_LATEST_COIN_ROOT: u8 = 5;

pub const CONSENSUS_CONTRACT_UNSTAKED_COIN_MERKLE_TREE: u8 = 6;

/// Epochs a staked coin must wait before it may request unstaking.
pub const GRACE_PERIOD: u64 = 2;

/// A one-byte name or key as a vector.
pub fn name_bytes(tag: u8) -> (r: Vec<u8>)
    ensures
        r@ == seq![tag],
{
    let mut v: Vec<u8> = Vec::new();
    v.push(tag);
    proof {
        assert(v@ =~= seq![tag]);
    }
    v
}

/// One contract call of a transaction: the contract and its
/// selector-prefixed call data.
#[derive(Debug, Clone, PartialEq)]
pub struct ContractCall {
    /// The contract being called.
    pub contract_id: ContractId,
    /// The function selector followed by the encoded parameters.
    pub data: Vec<u8>,
}

/// The anonymous input of an unstake request.
#[derive(Debug, Clone, Copy, PartialEq)]
pub struct StakeInput {
    /// The epoch the staked coin was minted in.
    pub epoch: u64,
    /// The single-use key that burns the staked coin.
    pub nullifier: [u8; 32],
    /// The key the transaction signature is checked against.
    pub signature_public: [u8; 32],
    /// A commitment-tree root the staked coin existed under.
    pub merkle_root: [u8; 32],
    /// The input's value commitment.
    pub value_commit: [u8; 32],
}

/// The anonymous output of an unstake request.
#[derive(Debug, Clone, Copy, PartialEq)]
pub struct StakeOutput {
    /// The output's value commitment.
    pub value_commit: [u8; 32],
    /// The newly created coin.
    pub coin: [u8; 32],
}

/// The parameters of an unstake-request call.
#[derive(Debug, Clone, Copy, PartialEq)]
pub struct UnstakeReqParams {
    pub input: StakeInput,
    pub output: StakeOutput,
}

/// Call data of an unstake request: the selector byte, then the fixed
/// 200-byte parameter block.
pub open spec fn params_len_ok(d: Seq<u8>) -> bool {
    d.len() == 201
}

pub open spec fn p_epoch(d: Seq<u8>) -> u64 {
    u64_of_le(d.subrange(1, 9))
}

pub open spec fn p_nullifier(d: Seq<u8>) -> Seq<u8> {
    d.subrange(9, 41)
}

pub open spec fn p_sig_public(d: Seq<u8>) -> Seq<u8> {
    d.subrange(41, 73)
}

pub open spec fn p_merkle_root(d: Seq<u8>) -> Seq<u8> {
    d.subrange(73, 105)
}

pub open spec fn p_value_commit_in(d: Seq<u8>) -> Seq<u8> {
    d.subrange(105, 137)
}

pub open spec fn p_value_commit_out(d: Seq<u8>) -> Seq<u8> {
    d.subrange(137, 169)
}

pub open spec fn p_coin(d: Seq<u8>) -> Seq<u8> {
    d.subrange(169, 201)
}

/// The call data encoding a parameter block under the unstake-request
/// selector.
pub open spec fn params_bytes(p: UnstakeReqParams) -> Seq<u8> {
    seq![UNSTAKE_REQUEST_FN] + u64_le(p.input.epoch) + p.input.nullifier@
        + p.input.signature_public@ + p.input.merkle_root@ + p.input.value_commit@
        + p.output.value_commit@ + p.output.coin@
}

/// Encode a parameter block as call data.
pub fn encode_params(p: &UnstakeReqParams) -> (r: Vec<u8>)
    ensures
        r@ == params_bytes(*p),
        r@.len() == 201,
{
    let mut out: Vec<u8> = Vec::new();
    out.push(UNSTAKE_REQUEST_FN);
    write_u64(&mut out, p.input.epoch);
    crate::codec::write_node(&mut out, &MerkleNode { bytes: p.input.nullifier });
    crate::codec::write_node(&mut out, &MerkleNode { bytes: p.input.signature_public });
    crate::codec::write_node(&mut out, &MerkleNode { bytes: p.input.merkle_root });
    crate::codec::write_node(&mut out, &MerkleNode { bytes: p.input.value_commit });
    crate::codec::write_node(&mut out, &MerkleNode { bytes: p.output.value_commit });
    crate::codec::write_node(&mut out, &MerkleNode { bytes: p.output.coin });
    proof {
        assert(out@ =~= params_bytes(*p));
    }
    out
}

/// Decode call data into a parameter block; `None` exactly when the
/// length is wrong.
pub fn decode_params(d: &Vec<u8>) -> (r: Option<UnstakeReqParams>)
    ensures
        match r {
            Some(p) => params_len_ok(d@) && p.input.epoch == p_epoch(d@) && p.input.nullifier@
                == p_nullifier(d@) && p.input.signature_public@ == p_sig_public(d@)
                && p.input.merkle_root@ == p_merkle_root(d@) && p.input.value_commit@
                == p_value_commit_in(d@) && p.output.value_commit@ == p_value_commit_out(d@)
                && p.output.coin@ == p_coin(d@),
            None => !params_len_ok(d@),
        },
{
    if d.len() != 201 {
        return None;
    }
    let (epoch, _) = read_u64(d, 1).unwrap();
    let (nullifier, _) = read_node(d, 9).unwrap();
    let (signature_public, _) = read_node(d, 41).unwrap();
    let (merkle_root, _) = read_node(d, 73).unwrap();
    let (value_commit_in, _) = read_node(d, 105).unwrap();
    let (value_commit_out, _) = read_node(d, 137).unwrap();
    let (coin, _) = read_node(d, 169).unwrap();
    Some(
        UnstakeReqParams {
            input: StakeInput {
                epoch,
                nullifier: nullifier.bytes,
                signature_public: signature_public.bytes,
                merkle_root: merkle_root.bytes,
                value_commit: value_commit_in.bytes,
            },
            output: StakeOutput { value_commit: value_commit_out.bytes, coin: coin.bytes },
        },
    )
}

/// The public inputs an unstake request exposes for its proof and
/// signature checks: the burn group (epoch, nullifier, signature key,
/// root, input commitment) and the mint group (output commitment,
/// coin), each under its group tag.
pub open spec fn unstake_metadata(d: Seq<u8>) -> Seq<u8> {
    seq![1u8] + d.subrange(1, 137) + seq![2u8] + d.subrange(137, 201)
}

/// The signature key inside a metadata block.
pub open spec fn metadata_sig_public(md: Seq<u8>) -> Seq<u8> {
    md.subrange(41, 73)
}

/// The signature key of a well-formed parameter block survives into
/// its metadata.
pub proof fn lemma_metadata_sig_public(d: Seq<u8>)
    requires
        params_len_ok(d),
    ensures
        metadata_sig_public(unstake_metadata(d)) == p_sig_public(d),
{
    assert(metadata_sig_public(unstake_metadata(d)) =~= p_sig_public(d));
}

/// Phase one of an unstake request: derive the public inputs for the
/// proof and signature checks from the call's own data.  Reads no
/// state; fails with `InternalError` exactly when the parameters do
/// not decode.
pub fn consensus_unstake_request_get_metadata_v1(
    _cid: &ContractId,
    call_idx: u32,
    calls: &Vec<DarkLeaf<ContractCall>>,
) -> (r: Result<Vec<u8>, ContractError>)
    requires
        (call_idx as int) < calls@.len(),
    ensures
        ({
            let d = calls@[call_idx as int].data.data@;
            match r {
                Ok(md) => params_len_ok(d) && md@ == unstake_metadata(d),
                Err(e) => !params_len_ok(d) && e == ContractError::InternalError,
            }
        }),
{
    let leaf = vstd::std_specs::vec::vec_index(calls, call_idx as usize);
    let d = &leaf.data.data;
    if d.len() != 201 {
        return Err(ContractError::InternalError);
    }
    let mut md: Vec<u8> = Vec::new();
    md.push(1u8);
    let mut burn = copy_range(d, 1, 137);
    md.append(&mut burn);
    md.push(2u8);
    let mut mint = copy_range(d, 137, 201);
    md.append(&mut mint);
    proof {
        assert(md@ =~= unstake_metadata(d@));
    }
    Ok(md)
}

/// The result and remaining gas of phase three of an unstake request,
/// checked in this order against the staged view `v` of environment
/// state: the caller must be the executing contract; the parameters
/// must decode; the three namespaces must resolve; the coin must be
/// out of its grace period; gas must cover the three lookups; the
/// claimed root must be a recorded root; the nullifier must be unseen;
/// input and output commitments must match; the coin must be new.  On
/// success: the update record, the selector followed by nullifier and
/// coin.
pub open spec fn unstake_instruction_outcome(
    handles: Seq<crate::bridge::DbHandle>,
    ecid: ContractId,
    gas: int,
    v: Seq<Map<Seq<u8>, Seq<u8>>>,
    cid: ContractId,
    d: Seq<u8>,
    verifying_epoch: u64,
) -> (Result<Seq<u8>, ContractError>, int) {
    if cid.bytes@ != ecid.bytes@ {
        (Err(ContractError::AccessDenied), gas)
    } else if !params_len_ok(d) {
        (Err(ContractError::InternalError), gas)
    } else {
        let nt = lookup_spec(handles, cid.bytes@, seq![CONSENSUS_CONTRACT_NULLIFIERS_TREE]);
        let ut = lookup_spec(handles, cid.bytes@, seq![CONSENSUS_CONTRACT_UNSTAKED_COINS_TREE]);
        let st = lookup_spec(
            handles,
            cid.bytes@,
            seq![CONSENSUS_CONTRACT_STAKED_COIN_ROOTS_TREE],
        );
        if nt is None || ut is None || st is None {
            (Err(ContractError::AccessDenied), gas)
        } else if p_epoch(d) != 0 && (verifying_epoch < p_epoch(d) || verifying_epoch - p_epoch(d)
            <= GRACE_PERIOD) {
            (Err(ContractError::CoinStillInGracePeriod), gas)
        } else if 96 > gas {
            (Err(ContractError::OutOfGas), 0)
        } else {
            let gas1 = gas - 96;
            let root_present = v[handles[st.unwrap()].table as int].contains_key(p_merkle_root(d));
            let null_present = v[handles[nt.unwrap()].table as int].contains_key(p_nullifier(d));
            let coin_present = v[handles[ut.unwrap()].table as int].contains_key(p_coin(d));
            if !root_present {
                (Err(ContractError::MerkleRootNotFound), gas1)
            } else if null_present {
                (Err(ContractError::DuplicateNullifier), gas1)
            } else if p_value_commit_in(d) != p_value_commit_out(d) {
                (Err(ContractError::ValueMismatch), gas1)
            } else if coin_present {
                (Err(ContractError::DuplicateCoin), gas1)
            } else {
                (Ok(seq![UNSTAKE_REQUEST_FN] + p_nullifier(d) + p_coin(d)), gas1)
            }
        }
    }
}

/// Phase three of an unstake request: validate the state transition
/// against current state and derive the update record.  Reads the
/// overlay, stages nothing.
#[verifier::rlimit(60)]
pub fn consensus_unstake_request_process_instruction_v1(
    cid: &ContractId,
    call_idx: u32,
    calls: &Vec<DarkLeaf<ContractCall>>,
    env: &mut HostEnv,
    verifying_epoch: u64,
) -> (r: Result<Vec<u8>, ContractError>)
    requires
        env_wf(*old(env)),
        (call_idx as int) < calls@.len(),
    ensures
        env_wf(*final(env)),
        final(env).contract_id == old(env).contract_id,
        final(env).section == old(env).section,
        final(env).handles == old(env).handles,
        final(env).overlay == old(env).overlay,
        ({
            let d = calls@[call_idx as int].data.data@;
            let out = unstake_instruction_outcome(
                old(env).handles@,
                old(env).contract_id,
                old(env).gas.remaining as int,
                overlay_view(old(env).overlay),
                *cid,
                d,
                verifying_epoch,
            );
            (match r {
                Ok(v) => out.0 == Ok::<Seq<u8>, ContractError>(v@),
                Err(e) => out.0 == Err::<Seq<u8>, ContractError>(e),
            }) && final(env).gas.remaining == out.1
        }),
{
    if !crate::types::id_eq(cid, &env.contract_id) {
        return Err(ContractError::AccessDenied);
    }
    let leaf = vstd::std_specs::vec::vec_index(calls, call_idx as usize);
    let d = &leaf.data.data;
    let params = match decode_params(d) {
        Some(p) => p,
        None => {
            return Err(ContractError::InternalError);
        },
    };
    // Resolve the namespaces this validation reads.
    let nullifiers_db = match db_lookup(
        env,
        cid,
        &name_bytes(CONSENSUS_CONTRACT_NULLIFIERS_TREE),
    ) {
        Ok(i) => i,
        Err(e) => {
            return Err(e);
        },
    };
    let unstaked_coins_db = match db_lookup(
        env,
        cid,
        &name_bytes(CONSENSUS_CONTRACT_UNSTAKED_COINS_TREE),
    ) {
        Ok(i) => i,
        Err(e) => {
            return Err(e);
        },
    };
    let staked_roots_db = match db_lookup(
        env,
        cid,
        &name_bytes(CONSENSUS_CONTRACT_STAKED_COIN_ROOTS_TREE),
    ) {
        Ok(i) => i,
        Err(e) => {
            return Err(e);
        },
    };
    // The coin must have passed through the grace period.
    if params.input.epoch != 0 && (verifying_epoch < params.input.epoch || verifying_epoch
        - params.input.epoch <= GRACE_PERIOD) {
        return Err(ContractError::CoinStillInGracePeriod);
    }
    // Read the three state facts the checks depend on.
    let root_present = match db_contains_key(
        env,
        staked_roots_db,
        &crate::types::bytes32_to_vec(&params.input.merkle_root),
    ) {
        Ok(b) => b,
        Err(e) => {
            return Err(e);
        },
    };
    let null_present = match db_contains_key(
        env,
        nullifiers_db,
        &crate::types::bytes32_to_vec(&params.input.nullifier),
    ) {
        Ok(b) => b,
        Err(e) => {
            return Err(e);
        },
    };
    let coin_present = match db_contains_key(
        env,
        unstaked_coins_db,
        &crate::types::bytes32_to_vec(&params.output.coin),
    ) {
        Ok(b) => b,
        Err(e) => {
            return Err(e);
        },
    };
    // The root must be real: the coin existed in a previous state.
    if !root_present {
        return Err(ContractError::MerkleRootNotFound);
    }
    // The nullifier must be unseen: the double-spend protection.
    if null_present {
        return Err(ContractError::DuplicateNullifier);
    }
    // Input and output commitments must agree.
    if !crate::types::bytes32_eq(&params.input.value_commit, &params.output.value_commit) {
        return Err(ContractError::ValueMismatch);
    }
    // The output coin must be new.
    if coin_present {
        return Err(ContractError::DuplicateCoin);
    }
    // Validation passed: the update record.
    let mut update: Vec<u8> = Vec::new();
    update.push(UNSTAKE_REQUEST_FN);
    crate::codec::write_node(&mut update, &MerkleNode { bytes: params.input.nullifier });
    crate::codec::write_node(&mut update, &MerkleNode { bytes: params.output.coin });
    proof {
        let dd = calls@[call_idx as int].data.data@;
        assert(update@ =~= seq![UNSTAKE_REQUEST_FN] + p_nullifier(dd) + p_coin(dd));
    }
    Ok(update)
}

/// A well-formed update record of an unstake request: the selector,
/// the nullifier, the coin.
pub open spec fn update_len_ok(u: Seq<u8>) -> bool {
    u.len() == 65 && u[0] == UNSTAKE_REQUEST_FN
}

pub open spec fn u_nullifier(u: Seq<u8>) -> Seq<u8> {
    u.subrange(1, 33)
}

pub open spec fn u_coin(u: Seq<u8>) -> Seq<u8> {
    u.subrange(33, 65)
}

/// The result, remaining gas and staged view of phase four of an
/// unstake request, checked in this order: the caller must be the
/// executing contract, running in the `Update` phase; the record must
/// be well-formed; the four namespaces must resolve; gas must cover
/// the two writes, which then stage the nullifier and the coin; and
/// the commitment-tree append behaves as [`merkle_add_outcome`] over
/// the view with those two writes staged.
pub open spec fn unstake_update_outcome(
    section: Section,
    handles: Seq<crate::bridge::DbHandle>,
    ecid: ContractId,
    gas: int,
    v0: Seq<Map<Seq<u8>, Seq<u8>>>,
    cid: ContractId,
    u: Seq<u8>,
) -> (Result<(), ContractError>, int, Seq<Map<Seq<u8>, Seq<u8>>>) {
    if cid.bytes@ != ecid.bytes@ {
        (Err(ContractError::AccessDenied), gas, v0)
    } else if section != Section::Update {
        (Err(ContractError::AccessDenied), gas, v0)
    } else if !update_len_ok(u) {
        (Err(ContractError::InternalError), gas, v0)
    } else {
        let it = lookup_spec(handles, cid.bytes@, seq![CONSENSUS_CONTRACT_INFO_TREE]);
        let nt = lookup_spec(handles, cid.bytes@, seq![CONSENSUS_CONTRACT_NULLIFIERS_TREE]);
        let ut = lookup_spec(handles, cid.bytes@, seq![CONSENSUS_CONTRACT_UNSTAKED_COINS_TREE]);
        let rt = lookup_spec(
            handles,
            cid.bytes@,
            seq![CONSENSUS_CONTRACT_UNSTAKED_COIN_ROOTS_TREE],
        );
        if it is None || nt is None || ut is None || rt is None {
            (Err(ContractError::AccessDenied), gas, v0)
        } else if 32 > gas {
            (Err(ContractError::OutOfGas), 0, v0)
        } else {
            let ntt = handles[nt.unwrap()].table as int;
            let v1 = v0.update(ntt, v0[ntt].insert(u_nullifier(u), Seq::empty()));
            if 64 > gas {
                (Err(ContractError::OutOfGas), 0, v1)
            } else {
                let utt = handles[ut.unwrap()].table as int;
                let v2 = v1.update(utt, v1[utt].insert(u_coin(u), Seq::empty()));
                let out = merkle_add_outcome(
                    section,
                    ecid.bytes@,
                    handles,
                    gas - 64,
                    v2,
                    it.unwrap(),
                    rt.unwrap(),
                    seq![CONSENSUS_CONTRACT_UNSTAKED_COIN_LATEST_COIN_ROOT],
                    seq![CONSENSUS_CONTRACT_UNSTAKED_COIN_MERKLE_TREE],
                    seq![u_coin(u)],
                );
                (out.0, out.1, out.2)
            }
        }
    }
}

/// Phase four of an unstake request: apply the validated update — add
/// the nullifier to its set, the coin to the unstaked set, and the
/// coin to the commitment tree, recording the new root.  All effects
/// are staged writes; a failure after a partial stage is surfaced so
/// the caller can discard this call's contribution.
#[verifier::rlimit(60)]
pub fn consensus_unstake_request_process_update_v1(
    cid: &ContractId,
    env: &mut HostEnv,
    update: &Vec<u8>,
) -> (r: Result<(), ContractError>)
    requires
        env_wf(*old(env)),
    ensures
        env_wf(*final(env)),
        final(env).contract_id == old(env).contract_id,
        final(env).section == old(env).section,
        final(env).handles == old(env).handles,
        final(env).overlay.base == old(env).overlay.base,
        ({
            let out = unstake_update_outcome(
                old(env).section,
                old(env).handles@,
                old(env).contract_id,
                old(env).gas.remaining as int,
                overlay_view(old(env).overlay),
                *cid,
                update@,
            );
            r == out.0 && final(env).gas.remaining == out.1 && overlay_view(final(env).overlay)
                == out.2
        }),
{
    if !crate::types::id_eq(cid, &env.contract_id) {
        return Err(ContractError::AccessDenied);
    }
    if !matches!(env.section, Section::Update) {
        return Err(ContractError::AccessDenied);
    }
    if update.len() != 65 {
        return Err(ContractError::InternalError);
    }
    if *vstd::std_specs::vec::vec_index(update, 0) != UNSTAKE_REQUEST_FN {
        return Err(ContractError::InternalError);
    }
    // Resolve the namespaces this update writes.
    let info_db = match db_lookup(env, cid, &name_bytes(CONSENSUS_CONTRACT_INFO_TREE)) {
        Ok(i) => i,
        Err(e) => {
            return Err(e);
        },
    };
    let nullifiers_db = match db_lookup(
        env,
        cid,
        &name_bytes(CONSENSUS_CONTRACT_NULLIFIERS_TREE),
    ) {
        Ok(i) => i,
        Err(e) => {
            return Err(e);
        },
    };
    let unstaked_coins_db = match db_lookup(
        env,
        cid,
        &name_bytes(CONSENSUS_CONTRACT_UNSTAKED_COINS_TREE),
    ) {
        Ok(i) => i,
        Err(e) => {
            return Err(e);
        },
    };
    let unstaked_coin_roots_db = match db_lookup(
        env,
        cid,
        &name_bytes(CONSENSUS_CONTRACT_UNSTAKED_COIN_ROOTS_TREE),
    ) {
        Ok(i) => i,
        Err(e) => {
            return Err(e);
        },
    };
    let nullifier = copy_range(update, 1, 33);
    let coin = copy_range(update, 33, 65);
    // Add the nullifier to the seen set.
    match db_set(env, nullifiers_db, nullifier, Vec::new()) {
        Ok(_) => (),
        Err(e) => {
            return Err(e);
        },
    }
    // Add the coin to the unstaked set.
    match db_set(env, unstaked_coins_db, coin, Vec::new()) {
        Ok(_) => (),
        Err(e) => {
            return Err(e);
        },
    }
    // Add the coin to the commitment tree, recording the new root.
    let coin_node = match read_node(update, 33) {
        Some(t) => t.0,
        None => {
            proof {
                assert(false);
            }
            return Err(ContractError::InternalError);
        },
    };
    let mut coins: Vec<MerkleNode> = Vec::new();
    coins.push(coin_node);
    proof {
        assert(crate::codec::nodes_bytes(coins@) =~= seq![u_coin(update@)]);
    }
    merkle_add(
        env,
        info_db,
        unstaked_coin_roots_db,
        name_bytes(CONSENSUS_CONTRACT_UNSTAKED_COIN_LATEST_COIN_ROOT),
        name_bytes(CONSENSUS_CONTRACT_UNSTAKED_COIN_MERKLE_TREE),
        &coins,
    )
}

/// Law: single-use enforcement.  A validation that succeeds implies
/// its uniqueness key was not yet recorded — so once a nullifier has
/// been accepted and persisted, any later call carrying the same
/// nullifier can never validate again; with the driver's atomicity it
/// is rejected with the duplicate-key error and applies no change.
pub proof fn lemma_nullifier_single_use(
    handles: Seq<crate::bridge::DbHandle>,
    ecid: ContractId,
    gas: int,
    v: Seq<Map<Seq<u8>, Seq<u8>>>,
    cid: ContractId,
    d: Seq<u8>,
    verifying_epoch: u64,
)
    ensures
        unstake_instruction_outcome(handles, ecid, gas, v, cid, d, verifying_epoch).0 is Ok
            ==> ({
            let nt = lookup_spec(handles, cid.bytes@, seq![CONSENSUS_CONTRACT_NULLIFIERS_TREE]);
            &&& nt is Some
            &&& !v[handles[nt.unwrap()].table as int].contains_key(p_nullifier(d))
        }),
        v.len() > 0 ==> ({
            let nt = lookup_spec(handles, cid.bytes@, seq![CONSENSUS_CONTRACT_NULLIFIERS_TREE]);
            (nt is Some && v[handles[nt.unwrap()].table as int].contains_key(p_nullifier(d))
                && unstake_instruction_outcome(
                handles,
                ecid,
                gas,
                v,
                cid,
                d,
                verifying_epoch,
            ).0 is Err)
                || nt is None
                || !v[handles[nt.unwrap()].table as int].contains_key(p_nullifier(d))
        }),
{
}

} // verus!

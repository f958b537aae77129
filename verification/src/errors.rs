//! The failure taxonomy of the execution core.

use vstd::prelude::*;

verus! {

/// Every way a transaction, a call, or a host operation can fail.
#[derive(Clone, Copy, PartialEq, Eq, Structural, Debug)]
pub enum ContractError {
    /// The flattened call sequence breaks a structural rule.
    MalformedCallTree,
    /// A handle is out of range, owned by another contract, or the
    /// operation is not allowed in the current lifecycle phase.
    AccessDenied,
    /// The gas budget ran out.
    OutOfGas,
    /// A zero-knowledge proof failed to verify.
    InvalidProof,
    /// A transaction signature failed to verify.
    InvalidSignature,
    /// The staked coin has not yet passed the grace period.
    CoinStillInGracePeriod,
    /// The claimed commitment-tree root was never produced.
    MerkleRootNotFound,
    /// The uniqueness key (nullifier) was already accepted.
    DuplicateNullifier,
    /// The output coin already exists.
    DuplicateCoin,
    /// Input and output value commitments disagree.
    ValueMismatch,
    /// Storage or serialization corruption; fatal when it happens while
    /// an already-validated update is being applied.
    InternalError,
}

impl ContractError {
    /// A short stable name for logs and interfaces.
    pub fn name(&self) -> (r: &'static str) {
        match self {
            ContractError::MalformedCallTree => "malformed call tree",
            ContractError::AccessDenied => "access denied",
            ContractError::OutOfGas => "out of gas",
            ContractError::InvalidProof => "invalid proof",
            ContractError::InvalidSignature => "invalid signature",
            ContractError::CoinStillInGracePeriod => "coin still in grace period",
            ContractError::MerkleRootNotFound => "merkle root not found",
            ContractError::DuplicateNullifier => "duplicate nullifier",
            ContractError::DuplicateCoin => "duplicate coin",
            ContractError::ValueMismatch => "value mismatch",
            ContractError::InternalError => "internal error",
        }
    }
}

} // verus!

//! Core machinery for executing a transaction made of nested smart-contract
//! calls: the index-linked call tree with its post-order traversals, the
//! host state bridge (handle checks, phase gating, staged writes, gas, and
//! the commitment-tree append primitive), and the four-phase transition
//! protocol that commits a transaction's effect atomically.

pub mod base58;
pub mod bridge;
pub mod calltree;
pub mod codec;
pub mod commit;
pub mod contract;
pub mod digest;
pub mod driver;
pub mod entropy;
pub mod errors;
pub mod metadata;
pub mod store;
pub mod types;

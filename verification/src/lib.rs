//! A sparse Merkle tree over 256-bit keys: an authenticated key-value map with a
//! canonical root hash and compact proofs of membership and of absence.

pub mod ckb_smt;
pub mod error;
pub mod h256;
pub mod laws;
pub mod memory_store;
pub mod merge;
pub mod merkle_proof;
pub mod multi_proof;
pub mod pairs;
pub mod tamper;
pub mod traits;
pub mod tree;
pub mod wire;

pub use crate::ckb_smt::{SMTBuilder, SMT};
pub use crate::error::Error;
pub use crate::h256::H256;
pub use crate::memory_store::MemoryStore;
pub use crate::traits::{Hasher, Store, Value};
pub use crate::tree::{BranchKey, BranchNode, SparseMerkleTree};

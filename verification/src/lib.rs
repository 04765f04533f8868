//! Authenticated data structures: Merkle-style commitment trees.
//!
//! The crate offers an append-only incremental Merkle tree (in-memory and
//! storage-backed), a fixed-depth sparse Merkle tree keyed by a hash digest,
//! compressed radix and commitment tree variants, and the transactional node
//! store backing the persistent trees. Every tree produces compact inclusion
//! proofs that a third party holding only the root can verify.

pub mod hashing;
pub mod hexstr;
pub mod merkle_tree;
pub mod patricia_merkle;
pub mod verkle_tree;
pub mod codec;
pub mod storage;
pub mod lmdb_tree;
pub mod sparse_merkle_tree;
pub mod optimized_sparse_tree;

use vstd::prelude::*;

verus! {

/// Length in bytes of every digest this library produces.
pub const HASH_LEN: usize = 32;

/// The error taxonomy shared by every tree and by the node store.
#[derive(Debug, Clone, Copy, PartialEq, Eq, Structural)]
pub enum TreeError {
    /// Malformed hex, wrong proof length, or an out-of-range index.
    InvalidInput,
    /// An insertion would exceed the configured leaf or key ceiling.
    CapacityExceeded,
    /// A query on an empty tree, or a proof for a key that is not present.
    NotFound,
    /// The backing store failed: I/O, serialization, or a transaction fault.
    StorageError,
    /// An internal bound was exceeded while recomputing; indicates a bug.
    InvariantViolated,
}

impl TreeError {
    /// A short human-readable description of the error kind.
    pub fn message(&self) -> (r: &'static str)
    {
        match self {
            TreeError::InvalidInput => "Invalid input",
            TreeError::CapacityExceeded => "Exceeded max number of leaves in merkle tree",
            TreeError::NotFound => "Not found",
            TreeError::StorageError => "Storage error",
            TreeError::InvariantViolated => "Exceeded max levels",
        }
    }
}

} // verus!

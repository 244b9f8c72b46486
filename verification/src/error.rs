//! The ways in which an operation on a tree or on a proof can fail.

use vstd::prelude::*;

verus! {

/// Code of a failure of the backing store.
pub const STORE_ERROR: i32 = 1;

/// Code of a proof whose structure is inconsistent.
pub const MALFORMED_PROOF: i32 = 2;

/// Code of a well-formed proof that leads to another root.
pub const ROOT_MISMATCH: i32 = 3;

/// Code of a key or value of the wrong width.
pub const INVALID_KEY_OR_VALUE: i32 = 4;

/// Why an operation failed.
#[derive(Debug, PartialEq, Eq)]
pub enum Error {
    /// The backing store failed a read or a write; the message is the store's.
    Store(String),
    /// The proof is truncated, holds an unknown instruction, or does not fit
    /// the claimed leaves.
    MalformedProof,
    /// The proof is well formed, but the root it leads to is not the expected
    /// one.
    RootMismatch,
    /// A key or value does not have 32 bytes.
    InvalidKeyOrValue,
}

impl Error {
    /// The numeric code of the kind of failure.
    pub open spec fn code_spec(self) -> i32 {
        match self {
            Error::Store(_) => STORE_ERROR,
            Error::MalformedProof => MALFORMED_PROOF,
            Error::RootMismatch => ROOT_MISMATCH,
            Error::InvalidKeyOrValue => INVALID_KEY_OR_VALUE,
        }
    }

    /// The numeric code of the kind of failure.
    pub fn code(&self) -> (c: i32)
        ensures
            c == self.code_spec(),
    {
        match self {
            Error::Store(_) => STORE_ERROR,
            Error::MalformedProof => MALFORMED_PROOF,
            Error::RootMismatch => ROOT_MISMATCH,
            Error::InvalidKeyOrValue => INVALID_KEY_OR_VALUE,
        }
    }
}

} // verus!

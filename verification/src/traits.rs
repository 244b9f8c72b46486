//! What the tree takes from its caller: the hash function, the value type and
//! the backing store.

use crate::error::Error;
use crate::h256::H256;
use crate::tree::{BranchKey, BranchNode};
use vstd::prelude::*;

verus! {

/// A streaming hash function with a 256-bit digest.
///
/// The digest is a function of the bytes written, in the order in which they
/// were written, and of nothing else.
pub trait Hasher: Sized {
    /// The bytes written so far.
    spec fn written(&self) -> Seq<u8>;

    /// The digest of a sequence of bytes.
    spec fn digest(bytes: Seq<u8>) -> H256;

    /// A hasher to which nothing has been written.
    fn new() -> (hasher: Self)
        ensures
            hasher.written() == Seq::<u8>::empty(),
    ;

    /// Writes the 32 bytes of `h`.
    fn write_h256(&mut self, h: &H256)
        ensures
            final(self).written() == old(self).written() + h@,
    ;

    /// Writes one byte.
    fn write_byte(&mut self, b: u8)
        ensures
            final(self).written() == old(self).written().push(b),
    ;

    /// The digest of what was written.
    fn finish(self) -> (digest: H256)
        ensures
            digest == Self::digest(self.written()),
    ;
}

/// A value that a leaf can hold.
///
/// A value stands in the tree by its 256-bit hash. The zero value stands for
/// the absence of a key, and its hash is the zero hash.
pub trait Value: Sized {
    /// The hash by which the value stands in the tree.
    spec fn hash_spec(&self) -> H256;

    /// The value of an absent key.
    spec fn zero_spec() -> Self;

    /// The zero value hashes to the zero hash.
    proof fn lemma_zero_hash()
        ensures
            Self::zero_spec().hash_spec() == H256::zero_spec(),
    ;

    /// The hash by which the value stands in the tree.
    fn to_h256(&self) -> (h: H256)
        ensures
            h == self.hash_spec(),
    ;

    /// The value of an absent key.
    fn zero() -> (v: Self)
        ensures
            v == Self::zero_spec(),
    ;
}

impl Value for H256 {
    open spec fn hash_spec(&self) -> H256 {
        *self
    }

    open spec fn zero_spec() -> H256 {
        H256::zero_spec()
    }

    proof fn lemma_zero_hash() {
    }

    fn to_h256(&self) -> (h: H256) {
        *self
    }

    fn zero() -> (v: H256) {
        H256::zero()
    }
}

/// What a map holds under a key, if anything.
pub open spec fn lookup<K, T>(m: Map<K, T>, k: K) -> Option<T> {
    if m.contains_key(k) {
        Some(m[k])
    } else {
        None
    }
}

/// The backing store of a tree: branch nodes by height and node key, leaves by
/// key.
///
/// A read that finds nothing is no error. A write that succeeds changes the
/// one record it names and nothing else; of a store after a failed write
/// nothing is known. A store may say of itself that it is reliable: then none
/// of its operations fails, and it stays reliable.
pub trait Store<V>: Sized {
    /// Whether no operation on this store fails.
    spec fn reliable(&self) -> bool;

    /// The branch nodes that the store holds.
    spec fn branches(&self) -> Map<BranchKey, BranchNode>;

    /// The leaves that the store holds.
    spec fn leaves(&self) -> Map<H256, V>;

    /// The branch node under `branch_key`, if the store holds one.
    fn get_branch(&self, branch_key: &BranchKey) -> (r: Result<Option<BranchNode>, Error>)
        ensures
            r matches Ok(found) ==> found == lookup(self.branches(), *branch_key),
            r matches Err(e) ==> e is Store,
            self.reliable() ==> r is Ok,
    ;

    /// The leaf under `leaf_key`, if the store holds one.
    fn get_leaf(&self, leaf_key: &H256) -> (r: Result<Option<V>, Error>)
        ensures
            r matches Ok(found) ==> found == lookup(self.leaves(), *leaf_key),
            r matches Err(e) ==> e is Store,
            self.reliable() ==> r is Ok,
    ;

    /// The branch nodes under each of `branch_keys`, in the same order.
    fn prefetch_branches(&self, branch_keys: &Vec<BranchKey>) -> (r: Result<
        Vec<Option<BranchNode>>,
        Error,
    >)
        ensures
            r matches Ok(found) ==> found@.len() == branch_keys@.len() && forall|i: int|
                0 <= i < found@.len() ==> #[trigger] found@[i] == lookup(
                    self.branches(),
                    branch_keys@[i],
                ),
            r matches Err(e) ==> e is Store,
            self.reliable() ==> r is Ok,
    ;

    /// Stores `branch` under `node_key`.
    fn insert_branch(&mut self, node_key: BranchKey, branch: BranchNode) -> (r: Result<(), Error>)
        ensures
            r is Ok ==> final(self).branches() == old(self).branches().insert(node_key, branch)
                && final(self).leaves() == old(self).leaves(),
            r matches Err(e) ==> e is Store,
            old(self).reliable() ==> r is Ok && final(self).reliable(),
    ;

    /// Stores `leaf` under `leaf_key`.
    fn insert_leaf(&mut self, leaf_key: H256, leaf: V) -> (r: Result<(), Error>)
        ensures
            r is Ok ==> final(self).leaves() == old(self).leaves().insert(leaf_key, leaf)
                && final(self).branches() == old(self).branches(),
            r matches Err(e) ==> e is Store,
            old(self).reliable() ==> r is Ok && final(self).reliable(),
    ;

    /// Removes the branch node under `node_key`, if there is one.
    fn remove_branch(&mut self, node_key: &BranchKey) -> (r: Result<(), Error>)
        ensures
            r is Ok ==> final(self).branches() == old(self).branches().remove(*node_key)
                && final(self).leaves() == old(self).leaves(),
            r matches Err(e) ==> e is Store,
            old(self).reliable() ==> r is Ok && final(self).reliable(),
    ;

    /// Removes the leaf under `leaf_key`, if there is one.
    fn remove_leaf(&mut self, leaf_key: &H256) -> (r: Result<(), Error>)
        ensures
            r is Ok ==> final(self).leaves() == old(self).leaves().remove(*leaf_key)
                && final(self).branches() == old(self).branches(),
            r matches Err(e) ==> e is Store,
            old(self).reliable() ==> r is Ok && final(self).reliable(),
    ;
}

} // verus!

//! The verifier's side of the tree: a set of claimed leaves, and the check of
//! a compact proof for them against a root.

use crate::error::{MALFORMED_PROOF, ROOT_MISMATCH};
use crate::h256::H256;
use crate::merge::leaf_hash;
use crate::merkle_proof::{compute_root, is_well_formed, lemma_well_formed, proof_root};
use crate::pairs::{is_normal, lookup_pair, map_of, normalized};
use crate::traits::Hasher;
use vstd::prelude::*;

verus! {

/// Collects the leaves of an `SMT`.
pub struct SMTBuilder {
    data: Vec<(H256, H256)>,
}

/// A set of leaves: key-value pairs in the order in which a proof takes
/// them up.
///
/// A pair with the zero value claims that its key is absent from the tree.
pub struct SMT {
    pairs: Vec<(H256, H256)>,
}

impl View for SMTBuilder {
    type V = Seq<(H256, H256)>;

    /// The pairs inserted so far, in the order of insertion.
    closed spec fn view(&self) -> Seq<(H256, H256)> {
        self.data@
    }
}

impl View for SMT {
    type V = Seq<(H256, H256)>;

    /// The pairs that the set holds, in their order.
    closed spec fn view(&self) -> Seq<(H256, H256)> {
        self.pairs@
    }
}

impl SMTBuilder {
    /// A builder without pairs.
    pub fn new() -> (r: Self)
        ensures
            r@ == Seq::<(H256, H256)>::empty(),
    {
        SMTBuilder { data: Vec::new() }
    }

    /// Adds the pair `(key, value)`; it overrides an earlier pair with the
    /// same key.
    pub fn insert(self, key: &H256, value: &H256) -> (r: Result<Self, i32>)
        ensures
            r is Ok,
            r.unwrap()@ == self@.push((*key, *value)),
    {
        let mut ret = self;
        ret.data.push((*key, *value));
        Ok(ret)
    }

    /// The set of the pairs inserted, in normal form: sorted by key, each key
    /// once, with the value that was inserted last.
    pub fn build(self) -> (r: Result<SMT, i32>)
        ensures
            r is Ok,
            is_normal(r.unwrap()@),
            map_of(r.unwrap()@) == map_of(self@),
    {
        Ok(SMT { pairs: normalized(&self.data) })
    }
}

impl SMT {
    /// The map that the set stands for: of two pairs with the same key, the
    /// later one counts.
    pub open spec fn map(&self) -> Map<H256, H256> {
        map_of(self@)
    }

    /// Sets the value under `key`. The new pair stands last.
    pub fn update(&mut self, key: &[u8; 32], value: &[u8; 32]) -> (r: Result<(), i32>)
        ensures
            r is Ok,
            final(self)@ == old(self)@.push((H256 { bytes: *key }, H256 { bytes: *value })),
            final(self).map() == old(self).map().insert(
                H256 { bytes: *key },
                H256 { bytes: *value },
            ),
    {
        self.pairs.push((H256 { bytes: *key }, H256 { bytes: *value }));
        proof {
            assert(self@.drop_last() =~= old(self)@);
        }
        Ok(())
    }

    /// The value under `key`: zero where the set holds no pair with this key.
    pub fn get(&self, key: &[u8; 32]) -> (r: Result<[u8; 32], i32>)
        ensures
            r == Ok::<[u8; 32], i32>(leaf_hash(self.map(), H256 { bytes: *key }).bytes),
    {
        let k = H256 { bytes: *key };
        let v = lookup_pair(&self.pairs, &k);
        Ok(v.bytes)
    }

    /// Brings the set into normal form: sorted by key, each key once, with
    /// the value that counted before.
    pub fn normalize(&mut self)
        ensures
            is_normal(final(self)@),
            final(self).map() == old(self).map(),
    {
        self.pairs = normalized(&self.pairs);
    }

    /// The root that `proof` leads to from the pairs of this set, taken in
    /// their order, or `MALFORMED_PROOF` where the proof is not well formed
    /// for them. A proof that is not well formed is refused before anything
    /// is hashed.
    pub fn calculate_root<H: Hasher>(&self, proof: &[u8]) -> (r: Result<[u8; 32], i32>)
        ensures
            r == match proof_root::<H>(self@, proof@) {
                Some(root) => Ok::<[u8; 32], i32>(root.bytes),
                None => Err::<[u8; 32], i32>(MALFORMED_PROOF),
            },
            r is Ok <==> is_well_formed(self@, proof@),
    {
        proof {
            lemma_well_formed::<H>(self@, proof@);
        }
        match compute_root::<H>(&self.pairs, proof) {
            Some(root) => Ok(root.bytes),
            None => Err(MALFORMED_PROOF),
        }
    }

    /// Checks that `proof` leads from the pairs of this set to `root`.
    ///
    /// Fails with `MALFORMED_PROOF` where the proof is not well formed for the
    /// pairs, before anything is hashed, and with `ROOT_MISMATCH` where it
    /// leads to another root.
    pub fn verify<H: Hasher>(&self, root: &H256, proof: &[u8]) -> (r: Result<(), i32>)
        ensures
            r == match proof_root::<H>(self@, proof@) {
                Some(found) => if found == *root {
                    Ok::<(), i32>(())
                } else {
                    Err::<(), i32>(ROOT_MISMATCH)
                },
                None => Err::<(), i32>(MALFORMED_PROOF),
            },
            r == Err::<(), i32>(MALFORMED_PROOF) <==> !is_well_formed(self@, proof@),
    {
        proof {
            lemma_well_formed::<H>(self@, proof@);
        }
        match compute_root::<H>(&self.pairs, proof) {
            Some(found) => if found.is_same(root) {
                Ok(())
            } else {
                Err(ROOT_MISMATCH)
            },
            None => Err(MALFORMED_PROOF),
        }
    }
}

} // verus!

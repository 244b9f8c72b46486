//! What holds of every tree and of every proof, whatever the keys, the values
//! and the order of the writes.

use crate::h256::H256;
use crate::merge::{leaf_hash, lemma_node_hash_local, root_hash};
use crate::merkle_proof::{lemma_path_proof_root, path_proof, proof_root};
use crate::multi_proof::{are_leaves_of, lemma_multi_proof_root, multi_proof};
use crate::pairs::{is_normal, lemma_map_of_normal, lemma_normal_unique, map_of};
use crate::tamper::{lemma_changed_leaf_changes_root, path_apart};
use crate::traits::{Hasher, Store, Value};
use crate::tree::{lemma_empty_tree, updated_all, updated_leaves, SparseMerkleTree};
use vstd::prelude::*;

verus! {

/// Two trees with the same leaves have the same root and the same branch
/// nodes in their stores, however each of them came to its leaves.
pub proof fn lemma_root_is_determined<H: Hasher, V: Value, S: Store<V>>(
    a: SparseMerkleTree<H, V, S>,
    b: SparseMerkleTree<H, V, S>,
)
    requires
        a.wf(),
        b.wf(),
        a.leaves() == b.leaves(),
    ensures
        a.root_spec() == b.root_spec(),
        a.store_spec().branches() == b.store_spec().branches(),
{
}

/// Writes under different keys can change places.
pub proof fn lemma_writes_commute<V: Value>(m: Map<H256, V>, k1: H256, v1: V, k2: H256, v2: V)
    requires
        k1 != k2,
    ensures
        updated_leaves(updated_leaves(m, k1, v1), k2, v2) == updated_leaves(
            updated_leaves(m, k2, v2),
            k1,
            v1,
        ),
{
    assert(updated_leaves(updated_leaves(m, k1, v1), k2, v2) =~= updated_leaves(
        updated_leaves(m, k2, v2),
        k1,
        v1,
    ));
}

/// Of two writes under one key the later one counts; so writing a value a
/// second time changes nothing.
pub proof fn lemma_last_write_wins<V: Value>(m: Map<H256, V>, k: H256, v1: V, v2: V)
    ensures
        updated_leaves(updated_leaves(m, k, v1), k, v2) == updated_leaves(m, k, v2),
{
    assert(updated_leaves(updated_leaves(m, k, v1), k, v2) =~= updated_leaves(m, k, v2));
}

/// Writing two batches one after the other is writing them as one batch.
pub proof fn lemma_batches_compose<V: Value>(
    m: Map<H256, V>,
    first: Seq<(H256, V)>,
    second: Seq<(H256, V)>,
)
    ensures
        updated_all(updated_all(m, first), second) == updated_all(m, first + second),
    decreases second.len(),
{
    if second.len() == 0 {
        assert(first + second =~= first);
    } else {
        lemma_batches_compose(m, first, second.drop_last());
        assert((first + second).drop_last() =~= first + second.drop_last());
        assert((first + second).last() == second.last());
    }
}

/// Writing the zero value removes the key: under a key that the tree does not
/// hold it changes nothing.
pub proof fn lemma_zero_write_is_absence<V: Value>(m: Map<H256, V>, k: H256)
    ensures
        updated_leaves(m, k, V::zero_spec()) == m.remove(k),
        !m.contains_key(k) ==> updated_leaves(m, k, V::zero_spec()) == m,
{
    V::lemma_zero_hash();
    if !m.contains_key(k) {
        assert(m.remove(k) =~= m);
    }
}

/// A leaf with the zero hash counts like no leaf: the root is the same with
/// it and without it.
pub proof fn lemma_zero_leaf_is_absence<H: Hasher>(m: Map<H256, H256>, k: H256)
    ensures
        root_hash::<H>(m.insert(k, H256::zero_spec())) == root_hash::<H>(m.remove(k)),
        !m.contains_key(k) ==> root_hash::<H>(m.insert(k, H256::zero_spec())) == root_hash::<H>(m),
{
    broadcast use H256::lemma_prefix_bit, H256::lemma_zero_bit;

    let z = H256::zero_spec();
    H256::lemma_bits_ext(z.prefix(256), z);
    assert forall|x: H256| leaf_hash(m.insert(k, z), x) == leaf_hash(m.remove(k), x) by {}
    lemma_node_hash_local::<H>(m.insert(k, z), m.remove(k), 256, z);
    if !m.contains_key(k) {
        assert(m.remove(k) =~= m);
    }
}

/// A sequence of pairs has one normal form: two normal sequences that stand
/// for the same map are equal. So bringing a normal sequence into normal form
/// changes nothing, and the normal form does not depend on the order in which
/// the pairs were inserted.
pub proof fn lemma_normal_form_is_unique(s: Seq<(H256, H256)>, t: Seq<(H256, H256)>)
    requires
        is_normal(s),
        is_normal(t),
        map_of(s) == map_of(t),
    ensures
        s == t,
{
    lemma_normal_unique(s, t);
}

/// The proof that a tree gives for a key leads from the value under that key
/// to the root of the tree: it verifies for the claims in normal form that
/// are made of the key and the hash of its value.
pub proof fn lemma_proof_round_trip<H: Hasher, V: Value, S: Store<V>>(
    tree: SparseMerkleTree<H, V, S>,
    key: H256,
    claims: Seq<(H256, H256)>,
)
    requires
        tree.wf(),
        is_normal(claims),
        map_of(claims) == map_of(seq![(key, leaf_hash(tree.leaf_hashes(), key))]),
    ensures
        proof_root::<H>(claims, path_proof::<H>(tree.leaf_hashes(), key)) == Some(
            tree.root_spec(),
        ),
        tree.leaves().contains_key(key) ==> leaf_hash(tree.leaf_hashes(), key)
            == tree.leaves()[key].hash_spec(),
{
    lemma_normal_unique(claims, seq![(key, leaf_hash(tree.leaf_hashes(), key))]);
    lemma_path_proof_root::<H>(tree.leaf_hashes(), key);
}

/// For a key that a tree does not hold, the proof that the tree gives leads
/// from the zero value to the root of the tree: it verifies for the claims in
/// normal form that are made of the key and the zero value.
pub proof fn lemma_non_membership<H: Hasher, V: Value, S: Store<V>>(
    tree: SparseMerkleTree<H, V, S>,
    key: H256,
    claims: Seq<(H256, H256)>,
)
    requires
        tree.wf(),
        !tree.leaves().contains_key(key),
        is_normal(claims),
        map_of(claims) == map_of(seq![(key, H256::zero_spec())]),
    ensures
        proof_root::<H>(claims, path_proof::<H>(tree.leaf_hashes(), key)) == Some(
            tree.root_spec(),
        ),
{
    lemma_normal_unique(claims, seq![(key, H256::zero_spec())]);
    lemma_path_proof_root::<H>(tree.leaf_hashes(), key);
}

/// The proof that a tree gives for several keys leads from the claimed
/// leaves to the root of the tree: it verifies for the claims in normal form
/// that stand for the same map as the claims that came with the proof, which
/// hold under each key what the tree holds, be it a value or nothing. The
/// proof for no keys is the proof of the tree with the zero root.
pub proof fn lemma_multi_proof_round_trip<H: Hasher, V: Value, S: Store<V>>(
    tree: SparseMerkleTree<H, V, S>,
    given: Seq<(H256, H256)>,
    claims: Seq<(H256, H256)>,
)
    requires
        tree.wf(),
        is_normal(given),
        are_leaves_of(tree.leaf_hashes(), given),
        given.len() > 0 || tree.root_spec() == H256::zero_spec(),
        is_normal(claims),
        map_of(claims) == map_of(given),
    ensures
        proof_root::<H>(claims, multi_proof::<H>(tree.leaf_hashes(), given)) == Some(
            tree.root_spec(),
        ),
{
    lemma_normal_unique(claims, given);
    lemma_multi_proof_root::<H>(tree.leaf_hashes(), given);
}

/// The proof for all the pairs of a set, which holds no sibling, leads to the
/// root of the tree that holds these pairs and nothing else; for the set
/// without pairs this is the zero root. A pair with the zero value adds
/// nothing to that root.
pub proof fn lemma_whole_set_root<H: Hasher>(claims: Seq<(H256, H256)>, k: H256)
    requires
        is_normal(claims),
    ensures
        proof_root::<H>(claims, multi_proof::<H>(map_of(claims), claims)) == Some(
            root_hash::<H>(map_of(claims)),
        ),
        root_hash::<H>(map_of(Seq::<(H256, H256)>::empty())) == H256::zero_spec(),
        !map_of(claims).contains_key(k) ==> root_hash::<H>(
            map_of(claims).insert(k, H256::zero_spec()),
        ) == root_hash::<H>(map_of(claims)),
{
    lemma_map_of_normal(claims);
    lemma_empty_tree::<H>();
    assert(map_of(Seq::<(H256, H256)>::empty()) =~= Map::<H256, H256>::empty());
    if claims.len() == 0 {
        assert(claims =~= Seq::<(H256, H256)>::empty());
    }
    lemma_multi_proof_root::<H>(map_of(claims), claims);
    lemma_zero_leaf_is_absence::<H>(map_of(claims), k);
}

/// Two trees that hold different values under a key have different roots,
/// where the hash function keeps apart what is hashed on the path of that key
/// in the two trees. So a write that changes what a tree holds under a key
/// changes its root, and a proof that leads to the root of the one tree is
/// refused as a root mismatch against the root of the other.
pub proof fn lemma_trees_differ<H: Hasher, V: Value, S: Store<V>>(
    a: SparseMerkleTree<H, V, S>,
    b: SparseMerkleTree<H, V, S>,
    key: H256,
)
    requires
        a.wf(),
        b.wf(),
        leaf_hash(a.leaf_hashes(), key) != leaf_hash(b.leaf_hashes(), key),
        path_apart::<H>(a.leaf_hashes(), b.leaf_hashes(), key),
    ensures
        a.root_spec() != b.root_spec(),
{
    lemma_changed_leaf_changes_root::<H>(a.leaf_hashes(), b.leaf_hashes(), key);
}

} // verus!

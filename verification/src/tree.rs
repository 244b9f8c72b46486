//! The tree over a backing store: the leaves and the branch nodes live in the
//! store, the tree keeps the root.
//!
//! The store holds a leaf for each key whose value does not hash to zero, and
//! a branch node for each node of the tree below which there is such a leaf.
//! So the content of the store is a function of the map from keys to values,
//! whatever the order in which the values were written.

use crate::error::Error;
use crate::h256::H256;
use crate::merge::{
    in_subtree, leaf_hash, lemma_child_keys, lemma_empty_subtree, lemma_node_hash_local,
    lemma_path_keys, lemma_path_step, lemma_prefix_of_prefix, lemma_sibling_unchanged, merge,
    node_hash, root_hash, sibling_hash,
};
use crate::merkle_proof::{
    lemma_path_proof_root, path_program, path_proof, proof_root, zeros_instruction, OP_JOIN,
    OP_LEAF, OP_SIBLING, OP_ZEROS,
};
use crate::multi_proof::{
    all_below, are_leaves_of, lemma_multi_proof_root, lemma_normal_claims, lemma_pending_bound,
    lemma_split, lemma_split_sorted, multi_proof, split_at, subtree_program, value_claims,
    with_sibling,
};
use crate::pairs::{
    is_normal, key_at, last_with_key, lemma_map_of_last, lemma_map_of_normal, map_of, normalized,
};
use crate::traits::{lookup, Hasher, Store, Value};
use core::marker::PhantomData;
use vstd::prelude::*;

verus! {

/// The place of a branch node: its height, from 0 just above the leaves to 255
/// at the root, and the key of its leftmost leaf, in which the bits up to and
/// including `height` are clear.
#[derive(Debug, Clone, Copy, PartialEq, Eq, Hash)]
pub struct BranchKey {
    pub height: u8,
    pub node_key: H256,
}

/// A branch node: the hashes of its two children, each the zero hash where the
/// subtree below holds nothing.
#[derive(Debug, Clone, Copy, PartialEq, Eq)]
pub struct BranchNode {
    pub left: H256,
    pub right: H256,
}

/// Whether `bk` is the place of a node: the bits of the node key up to and
/// including the height are clear.
pub open spec fn is_canonical(bk: BranchKey) -> bool {
    bk.node_key.prefix(bk.height as int + 1) == bk.node_key
}

/// The branch node that belongs at `bk` in the tree of the leaf hashes `m`:
/// none where both children are zero.
pub open spec fn expected_branch<H: Hasher>(m: Map<H256, H256>, bk: BranchKey) -> Option<
    BranchNode,
> {
    let left = node_hash::<H>(m, bk.height as nat, bk.node_key);
    let right = node_hash::<H>(m, bk.height as nat, bk.node_key.with_bit(bk.height as int));
    if left == H256::zero_spec() && right == H256::zero_spec() {
        None
    } else {
        Some(BranchNode { left, right })
    }
}

/// The branch nodes of the tree of the leaf hashes `m`.
pub open spec fn branches_of<H: Hasher>(m: Map<H256, H256>) -> Map<BranchKey, BranchNode> {
    Map::new(
        |bk: BranchKey| is_canonical(bk) && expected_branch::<H>(m, bk) is Some,
        |bk: BranchKey| expected_branch::<H>(m, bk).unwrap(),
    )
}

/// The leaf hashes of a map of values.
pub open spec fn hashes<V: Value>(leaves: Map<H256, V>) -> Map<H256, H256> {
    Map::new(|k: H256| leaves.contains_key(k), |k: H256| leaves[k].hash_spec())
}

/// The leaves after `value` was written under `key`: a value that hashes to
/// zero removes the key.
pub open spec fn updated_leaves<V: Value>(leaves: Map<H256, V>, key: H256, value: V) -> Map<
    H256,
    V,
> {
    if value.hash_spec() == H256::zero_spec() {
        leaves.remove(key)
    } else {
        leaves.insert(key, value)
    }
}

/// The leaves after each pair of `pairs` was written, in their order.
pub open spec fn updated_all<V: Value>(leaves: Map<H256, V>, pairs: Seq<(H256, V)>) -> Map<
    H256,
    V,
>
    decreases pairs.len(),
{
    if pairs.len() == 0 {
        leaves
    } else {
        updated_leaves(updated_all(leaves, pairs.drop_last()), pairs.last().0, pairs.last().1)
    }
}

/// The branch nodes in the store while the path of a key is rewritten from
/// the leaf up to `height`: below `height` those of the new leaves `m2`, from
/// there on those of the old leaves `m`.
pub open spec fn branch_in_transit<H: Hasher>(
    m: Map<H256, H256>,
    m2: Map<H256, H256>,
    height: int,
    bk: BranchKey,
) -> Option<BranchNode> {
    if !is_canonical(bk) {
        None
    } else if bk.height < height {
        expected_branch::<H>(m2, bk)
    } else {
        expected_branch::<H>(m, bk)
    }
}

/// The branch node above the node at height `h` on the path of `key` holds
/// that node and its sibling, the right one of the two being the one whose key
/// has bit `h` set.
pub proof fn lemma_path_branch<H: Hasher>(m: Map<H256, H256>, key: H256, h: nat)
    requires
        h < 256,
    ensures
        is_canonical(BranchKey { height: h as u8, node_key: key.prefix(h as int + 1) }),
        expected_branch::<H>(m, BranchKey { height: h as u8, node_key: key.prefix(h as int + 1) })
            == (if key.bit(h as int) {
            branch_or_none(sibling_hash::<H>(m, key, h), node_hash::<H>(m, h, key.prefix(h as int)))
        } else {
            branch_or_none(node_hash::<H>(m, h, key.prefix(h as int)), sibling_hash::<H>(m, key, h))
        }),
{
    lemma_path_keys(key, h);
}

/// The branch node with the children `left` and `right`: none where both are
/// zero.
pub open spec fn branch_or_none(left: H256, right: H256) -> Option<BranchNode> {
    if left == H256::zero_spec() && right == H256::zero_spec() {
        None
    } else {
        Some(BranchNode { left, right })
    }
}

/// A change of the leaf under `key` leaves the branch nodes off its path as
/// they are.
pub proof fn lemma_off_path<H: Hasher>(
    m: Map<H256, H256>,
    m2: Map<H256, H256>,
    key: H256,
    bk: BranchKey,
)
    requires
        forall|k: H256| k != key ==> leaf_hash(m, k) == leaf_hash(m2, k),
        is_canonical(bk),
        key.prefix(bk.height as int + 1) != bk.node_key,
    ensures
        expected_branch::<H>(m, bk) == expected_branch::<H>(m2, bk),
{
    let h = bk.height as nat;
    let p = bk.node_key;
    let q = p.with_bit(h as int);
    lemma_child_keys(p, h + 1);
    assert forall|k: H256| in_subtree(k, h, p) implies leaf_hash(m, k) == leaf_hash(m2, k) by {
        lemma_prefix_of_prefix(k, h as int, h as int + 1);
    }
    assert forall|k: H256| in_subtree(k, h, q) implies leaf_hash(m, k) == leaf_hash(m2, k) by {
        lemma_prefix_of_prefix(k, h as int, h as int + 1);
    }
    lemma_node_hash_local::<H>(m, m2, h, p);
    lemma_node_hash_local::<H>(m, m2, h, q);
}

/// A tree without leaves has no branch nodes, and its root is zero.
pub proof fn lemma_empty_tree<H: Hasher>()
    ensures
        root_hash::<H>(Map::<H256, H256>::empty()) == H256::zero_spec(),
        branches_of::<H>(Map::<H256, H256>::empty()) == Map::<BranchKey, BranchNode>::empty(),
{
    broadcast use H256::lemma_prefix_bit, H256::lemma_zero_bit;

    let m = Map::<H256, H256>::empty();
    let z = H256::zero_spec();
    H256::lemma_bits_ext(z.prefix(256), z);
    lemma_empty_subtree::<H>(m, 256, z);
    assert forall|bk: BranchKey| is_canonical(bk) implies expected_branch::<H>(m, bk) is None by {
        let h = bk.height as nat;
        lemma_child_keys(bk.node_key, h + 1);
        lemma_empty_subtree::<H>(m, h, bk.node_key);
        lemma_empty_subtree::<H>(m, h, bk.node_key.with_bit(h as int));
    }
    assert(branches_of::<H>(m) =~= Map::<BranchKey, BranchNode>::empty());
}

/// The place of the branch node at height `h` on the path of `key`.
pub open spec fn path_branch_key(key: H256, h: int) -> BranchKey {
    BranchKey { height: h as u8, node_key: key.prefix(h + 1) }
}

/// The places of the branch nodes on the path of `key`, from the leaf to the
/// root.
fn path_branch_keys(key: &H256) -> (keys: Vec<BranchKey>)
    ensures
        keys@.len() == 256,
        forall|i: int| 0 <= i < 256 ==> #[trigger] keys@[i] == path_branch_key(*key, i),
{
    let mut keys: Vec<BranchKey> = Vec::new();
    let mut height: u16 = 0;
    while height < 256
        invariant
            height <= 256,
            keys@.len() == height,
            forall|i: int| 0 <= i < height ==> #[trigger] keys@[i] == path_branch_key(*key, i),
        decreases 256 - height,
    {
        keys.push(BranchKey { height: height as u8, node_key: key.parent_path(height as u8) });
        height += 1;
    }
    keys
}

/// Writes the instruction for `pending` zero siblings in a row: nothing for
/// none.
fn write_zeros(out: &mut Vec<u8>, pending: u16)
    requires
        pending <= 256,
    ensures
        final(out)@ == old(out)@ + zeros_instruction(pending as nat),
{
    if pending > 0 {
        out.push(OP_ZEROS);
        out.push((pending % 256) as u8);
        proof {
            assert(out@ =~= old(out)@ + zeros_instruction(pending as nat));
        }
    } else {
        proof {
            assert(out@ =~= old(out)@ + zeros_instruction(pending as nat));
        }
    }
}

/// A sparse Merkle tree over the store `S`, with values of type `V` and the
/// hash function `H`.
pub struct SparseMerkleTree<H, V, S> {
    store: S,
    root: H256,
    phantom: PhantomData<(H, V)>,
}

impl<H: Hasher, V: Value, S: Store<V>> SparseMerkleTree<H, V, S> {
    /// The store of the tree.
    pub closed spec fn store_spec(&self) -> S {
        self.store
    }

    /// The root that the tree keeps.
    pub closed spec fn root_spec(&self) -> H256 {
        self.root
    }

    /// The map from keys to values that the tree stands for.
    pub open spec fn leaves(&self) -> Map<H256, V> {
        self.store_spec().leaves()
    }

    /// The leaf hashes of the tree.
    pub open spec fn leaf_hashes(&self) -> Map<H256, H256> {
        hashes(self.leaves())
    }

    /// Whether root and store fit together: no leaf hashes to zero, the
    /// branch nodes in the store are those of the leaves, and the root is the
    /// root hash of the leaves.
    pub open spec fn wf(&self) -> bool {
        &&& forall|k: H256| #[trigger]
            self.leaves().contains_key(k) ==> self.leaves()[k].hash_spec() != H256::zero_spec()
        &&& self.store_spec().branches() == branches_of::<H>(self.leaf_hashes())
        &&& self.root_spec() == root_hash::<H>(self.leaf_hashes())
    }

    /// The tree with the given root over the given store. With the zero root
    /// over an empty store this is the empty tree.
    pub fn new(root: H256, store: S) -> (tree: Self)
        ensures
            tree.root_spec() == root,
            tree.store_spec() == store,
            root == H256::zero_spec() && store.leaves() == Map::<H256, V>::empty()
                && store.branches() == Map::<BranchKey, BranchNode>::empty() ==> tree.wf(),
    {
        proof {
            lemma_empty_tree::<H>();
            assert(hashes(Map::<H256, V>::empty()) =~= Map::<H256, H256>::empty());
        }
        SparseMerkleTree { store, root, phantom: PhantomData }
    }

    /// The root hash of the tree.
    pub fn root(&self) -> (r: &H256)
        ensures
            *r == self.root_spec(),
            self.wf() ==> *r == root_hash::<H>(self.leaf_hashes()),
    {
        &self.root
    }

    /// Whether the root is zero, as it is for a tree without leaves.
    pub fn is_empty(&self) -> (r: bool)
        ensures
            r == (self.root_spec() == H256::zero_spec()),
    {
        self.root.is_zero()
    }

    /// The store of the tree.
    pub fn store(&self) -> (r: &S)
        ensures
            *r == self.store_spec(),
    {
        &self.store
    }

    /// Gives up the tree for its store.
    pub fn take_store(self) -> (r: S)
        ensures
            r == self.store_spec(),
    {
        self.store
    }

    /// The value under `key`: the zero value where the tree holds none.
    pub fn get(&self, key: &H256) -> (r: Result<V, Error>)
        ensures
            r matches Ok(v) ==> v == (if self.leaves().contains_key(*key) {
                self.leaves()[*key]
            } else {
                V::zero_spec()
            }),
            r matches Err(e) ==> e is Store,
            self.store_spec().reliable() ==> r is Ok,
    {
        match self.store.get_leaf(key) {
            Ok(Some(v)) => Ok(v),
            Ok(None) => Ok(V::zero()),
            Err(e) => Err(e),
        }
    }

    /// Writes `value` under `key` and returns the new root. A value that
    /// hashes to zero removes the key.
    ///
    /// The branch nodes on the path of the key are read first, all at once,
    /// and the new ones are made from them. Only then is anything written: the
    /// leaf, then the branch nodes from the leaf to the root, where a branch
    /// node whose children are both zero is removed; the root is set last.
    /// So a read that fails leaves the store as it was, and no failure
    /// changes the root. Fails only where the store fails, so never over a
    /// reliable store; after a failed write root and store may no longer fit
    /// together.
    pub fn update(&mut self, key: H256, value: V) -> (r: Result<H256, Error>)
        requires
            old(self).wf(),
        ensures
            r matches Ok(root) ==> final(self).wf() && root == final(self).root_spec()
                && final(self).leaves() == updated_leaves(old(self).leaves(), key, value),
            r matches Err(e) ==> e is Store,
            r is Err ==> final(self).root_spec() == old(self).root_spec(),
            old(self).store_spec().reliable() ==> r is Ok && final(self).store_spec().reliable(),
    {
        let ghost m = hashes(self.store.leaves());
        let ghost leaves2 = updated_leaves(self.store.leaves(), key, value);
        let ghost m2 = hashes(leaves2);
        let value_hash = value.to_h256();
        let keys = path_branch_keys(&key);
        let found = match self.store.prefetch_branches(&keys) {
            Ok(found) => found,
            Err(e) => {
                return Err(e);
            },
        };
        proof {
            broadcast use H256::lemma_prefix_bit;

            H256::lemma_bits_ext(key.prefix(0), key);
        }
        let mut nodes: Vec<Option<BranchNode>> = Vec::new();
        let mut current = value_hash;
        let mut height: u16 = 0;
        while height < 256
            invariant
                height <= 256,
                nodes@.len() == height,
                found@.len() == 256,
                keys@.len() == 256,
                forall|i: int| 0 <= i < 256 ==> #[trigger] keys@[i] == path_branch_key(key, i),
                forall|i: int|
                    0 <= i < 256 ==> #[trigger] found@[i] == lookup(
                        branches_of::<H>(m),
                        keys@[i],
                    ),
                current == node_hash::<H>(m2, height as nat, key.prefix(height as int)),
                forall|k: H256| k != key ==> leaf_hash(m, k) == leaf_hash(m2, k),
                forall|i: int|
                    0 <= i < height ==> #[trigger] nodes@[i] == expected_branch::<H>(
                        m2,
                        path_branch_key(key, i),
                    ),
            decreases 256 - height,
        {
            let h: u8 = height as u8;
            let parent_key = key.parent_path(h);
            let is_right = key.get_bit(h);
            let sibling = match found[height as usize] {
                Some(branch) => if is_right {
                    branch.left
                } else {
                    branch.right
                },
                None => H256::zero(),
            };
            proof {
                lemma_path_keys(key, h as nat);
                lemma_path_branch::<H>(m, key, h as nat);
                lemma_path_branch::<H>(m2, key, h as nat);
                lemma_path_step::<H>(m2, key, h as nat);
                lemma_sibling_unchanged::<H>(m, m2, key, h as nat);
                assert(found@[h as int] == lookup(branches_of::<H>(m), keys@[h as int]));
                assert(sibling == sibling_hash::<H>(m2, key, h as nat));
            }
            let (left, right) = if is_right {
                (sibling, current)
            } else {
                (current, sibling)
            };
            if left.is_zero() && right.is_zero() {
                nodes.push(None);
            } else {
                nodes.push(Some(BranchNode { left, right }));
            }
            current = merge::<H>(h, &parent_key, &left, &right);
            height += 1;
        }
        let written = if value_hash.is_zero() {
            self.store.remove_leaf(&key)
        } else {
            self.store.insert_leaf(key, value)
        };
        match written {
            Ok(()) => {},
            Err(e) => {
                return Err(e);
            },
        }
        let mut i: usize = 0;
        while i < 256
            invariant
                i <= 256,
                nodes@.len() == 256,
                keys@.len() == 256,
                self.store.leaves() == leaves2,
                self.root == old(self).root,
                old(self).store.reliable() ==> self.store.reliable(),
                forall|j: int| 0 <= j < 256 ==> #[trigger] keys@[j] == path_branch_key(key, j),
                forall|j: int|
                    0 <= j < 256 ==> #[trigger] nodes@[j] == expected_branch::<H>(
                        m2,
                        path_branch_key(key, j),
                    ),
                forall|k: H256| k != key ==> leaf_hash(m, k) == leaf_hash(m2, k),
                forall|bk: BranchKey| #[trigger]
                    lookup(self.store.branches(), bk) == branch_in_transit::<H>(
                        m,
                        m2,
                        i as int,
                        bk,
                    ),
            decreases 256 - i,
        {
            let bk = keys[i];
            let ghost before = self.store.branches();
            let stored = match nodes[i] {
                Some(node) => self.store.insert_branch(bk, node),
                None => self.store.remove_branch(&bk),
            };
            match stored {
                Ok(()) => {},
                Err(e) => {
                    return Err(e);
                },
            }
            proof {
                lemma_path_keys(key, i as nat);
                assert(nodes@[i as int] == expected_branch::<H>(m2, path_branch_key(key, i as int)));
                assert forall|other: BranchKey| #[trigger]
                    lookup(self.store.branches(), other) == branch_in_transit::<H>(
                        m,
                        m2,
                        i + 1,
                        other,
                    ) by {
                    if other != bk {
                        assert(lookup(before, other) == branch_in_transit::<H>(
                            m,
                            m2,
                            i as int,
                            other,
                        ));
                        if is_canonical(other) && other.height == i {
                            lemma_off_path::<H>(m, m2, key, other);
                        }
                    }
                }
            }
            i += 1;
        }
        self.root = current;
        proof {
            broadcast use H256::lemma_prefix_bit, H256::lemma_zero_bit;

            H256::lemma_bits_ext(key.prefix(256), H256::zero_spec());
            let stored = self.store.branches();
            let wanted = branches_of::<H>(m2);
            assert forall|bk: BranchKey| #[trigger]
                stored.contains_key(bk) == wanted.contains_key(bk) by {
                assert(lookup(stored, bk) == branch_in_transit::<H>(m, m2, 256, bk));
            }
            assert forall|bk: BranchKey| #[trigger] stored.contains_key(bk) implies stored[bk]
                == wanted[bk] by {
                assert(lookup(stored, bk) == branch_in_transit::<H>(m, m2, 256, bk));
            }
            assert(stored =~= wanted);
        }
        Ok(current)
    }

    /// The compact proof for `key`: the program that leads from the leaf under
    /// `key`, or from a zero leaf where the tree holds none, to the root of the
    /// tree. Fails only where the store fails.
    pub fn merkle_proof(&self, key: H256) -> (r: Result<Vec<u8>, Error>)
        requires
            self.wf(),
        ensures
            r matches Ok(p) ==> p@ == path_proof::<H>(self.leaf_hashes(), key) && proof_root::<H>(
                seq![(key, leaf_hash(self.leaf_hashes(), key))],
                p@,
            ) == Some(self.root_spec()),
            r matches Err(e) ==> e is Store,
            self.store_spec().reliable() ==> r is Ok,
    {
        let ghost m = self.leaf_hashes();
        proof {
            lemma_path_proof_root::<H>(m, key);
        }
        let keys = path_branch_keys(&key);
        let found = match self.store.prefetch_branches(&keys) {
            Ok(found) => found,
            Err(e) => {
                return Err(e);
            },
        };
        let mut out: Vec<u8> = Vec::new();
        out.push(OP_LEAF);
        let mut zeros: u16 = 0;
        let mut h: u16 = 0;
        proof {
            assert(path_proof::<H>(m, key) =~= out@ + path_program::<H>(m, key, 0, 0));
        }
        while h < 256
            invariant
                h <= 256,
                zeros <= h,
                self.wf(),
                m == self.leaf_hashes(),
                found@.len() == 256,
                keys@.len() == 256,
                forall|i: int| 0 <= i < 256 ==> #[trigger] keys@[i] == path_branch_key(key, i),
                forall|i: int|
                    0 <= i < 256 ==> #[trigger] found@[i] == lookup(
                        self.store.branches(),
                        keys@[i],
                    ),
                path_proof::<H>(m, key) == out@ + path_program::<H>(m, key, h as nat, zeros as nat),
            decreases 256 - h,
        {
            let is_right = key.get_bit(h as u8);
            let sibling = match found[h as usize] {
                Some(branch) => if is_right {
                    branch.left
                } else {
                    branch.right
                },
                None => H256::zero(),
            };
            proof {
                lemma_path_branch::<H>(m, key, h as nat);
                assert(found@[h as int] == lookup(self.store.branches(), keys@[h as int]));
                assert(sibling == sibling_hash::<H>(m, key, h as nat));
            }
            if sibling.is_zero() {
                zeros += 1;
            } else {
                let ghost so_far = out@;
                if zeros > 0 {
                    out.push(OP_ZEROS);
                    out.push(zeros as u8);
                }
                out.push(OP_SIBLING);
                out.extend_from_slice(sibling.as_slice());
                proof {
                    assert(out@ =~= so_far + (zeros_instruction(zeros as nat) + (seq![OP_SIBLING]
                        + sibling@)));
                    assert(path_proof::<H>(m, key) =~= out@ + path_program::<H>(
                        m,
                        key,
                        (h + 1) as nat,
                        0,
                    ));
                }
                zeros = 0;
            }
            h += 1;
        }
        if zeros > 0 {
            out.push(OP_ZEROS);
            out.push((zeros % 256) as u8);
        }
        proof {
            assert(path_proof::<H>(m, key) =~= out@);
        }
        Ok(out)
    }

    /// Writes the program that rebuilds the node at height `h` with the key
    /// `p` from the claimed leaves `lo` to `hi - 1`, and returns the number of
    /// zero siblings at the end of the way that are not written yet.
    fn subtree_proof(
        &self,
        claims: &Vec<(H256, H256)>,
        lo: usize,
        hi: usize,
        h: u16,
        p: H256,
        out: &mut Vec<u8>,
    ) -> (r: Result<u16, Error>)
        requires
            self.wf(),
            is_normal(claims@),
            0 <= lo < hi <= claims@.len(),
            h <= 256,
            p.prefix(h as int) == p,
            all_below(claims@, lo as int, hi as int, h as nat, p),
        ensures
            r matches Ok(pending) ==> ({
                let done = subtree_program::<H>(
                    self.leaf_hashes(),
                    claims@,
                    lo as int,
                    hi as int,
                    h as nat,
                    p,
                );
                final(out)@ == old(out)@ + done.0 && pending == done.1 && pending <= h
            }),
            r matches Err(e) ==> e is Store,
            self.store_spec().reliable() ==> r is Ok,
        decreases h,
    {
        let ghost m = self.leaf_hashes();
        let ghost done = subtree_program::<H>(m, claims@, lo as int, hi as int, h as nat, p);
        proof {
            lemma_pending_bound::<H>(m, claims@, lo as int, hi as int, h as nat, p);
        }
        if h == 0 {
            out.push(OP_LEAF);
            proof {
                assert(out@ =~= old(out)@ + done.0);
            }
            return Ok(0);
        }
        let b: u8 = (h - 1) as u8;
        let mut q = p;
        q.set_bit(b);
        let mut mid: usize = lo;
        while mid < hi && !claims[mid].0.get_bit(b)
            invariant
                lo <= mid <= hi <= claims@.len(),
                split_at(claims@, lo as int, hi as int, b as int) == split_at(
                    claims@,
                    mid as int,
                    hi as int,
                    b as int,
                ),
            decreases hi - mid,
        {
            mid += 1;
        }
        proof {
            lemma_split(claims@, lo as int, hi as int, b as int);
            lemma_split_sorted(claims@, lo as int, hi as int, h as nat, p);
            lemma_child_keys(p, h as nat);
        }
        if lo < mid && mid < hi {
            let left = match self.subtree_proof(claims, lo, mid, h - 1, p, out) {
                Ok(pending) => pending,
                Err(e) => {
                    return Err(e);
                },
            };
            write_zeros(out, left);
            let right = match self.subtree_proof(claims, mid, hi, h - 1, q, out) {
                Ok(pending) => pending,
                Err(e) => {
                    return Err(e);
                },
            };
            write_zeros(out, right);
            out.push(OP_JOIN);
            proof {
                assert(out@ =~= old(out)@ + done.0);
            }
            Ok(0)
        } else {
            let all_left = mid >= hi;
            let side = if all_left {
                p
            } else {
                q
            };
            let pending = match self.subtree_proof(claims, lo, hi, h - 1, side, out) {
                Ok(pending) => pending,
                Err(e) => {
                    return Err(e);
                },
            };
            let bk = BranchKey { height: b, node_key: p };
            let found = match self.store.get_branch(&bk) {
                Ok(found) => found,
                Err(e) => {
                    return Err(e);
                },
            };
            let sibling = match found {
                Some(branch) => if all_left {
                    branch.right
                } else {
                    branch.left
                },
                None => H256::zero(),
            };
            proof {
                assert(is_canonical(bk));
                assert(found == expected_branch::<H>(m, bk));
                let other = if all_left { q } else { p };
                assert(sibling == node_hash::<H>(m, b as nat, other));
                let child = subtree_program::<H>(
                    m,
                    claims@,
                    lo as int,
                    hi as int,
                    (h - 1) as nat,
                    side,
                );
                assert(done == with_sibling(child, sibling));
            }
            if sibling.is_zero() {
                Ok(pending + 1)
            } else {
                write_zeros(out, pending);
                out.push(OP_SIBLING);
                out.extend_from_slice(sibling.as_slice());
                proof {
                    assert(out@ =~= old(out)@ + done.0);
                }
                Ok(0)
            }
        }
    }

    /// The claims and the compact proof for `keys`: the keys in their order,
    /// each once and with the hash of the value that the tree holds under it,
    /// zero where it holds none; and the program that leads from these leaves
    /// to the root of the tree. For no keys both are empty: the empty proof
    /// leads to the zero root, so it is the proof of the tree without leaves
    /// and of no other. Fails only where the store fails.
    pub fn merkle_proof_all(&self, keys: &Vec<H256>) -> (r: Result<
        (Vec<(H256, H256)>, Vec<u8>),
        Error,
    >)
        requires
            self.wf(),
        ensures
            r matches Ok(found) ==> {
                &&& is_normal(found.0@)
                &&& map_of(found.0@) == map_of(value_claims(self.leaf_hashes(), keys@))
                &&& are_leaves_of(self.leaf_hashes(), found.0@)
                &&& found.1@ == multi_proof::<H>(self.leaf_hashes(), found.0@)
                &&& keys@.len() > 0 || self.root_spec() == H256::zero_spec() ==> proof_root::<H>(
                    found.0@,
                    found.1@,
                ) == Some(self.root_spec())
            },
            r matches Err(e) ==> e is Store,
            self.store_spec().reliable() || keys@.len() == 0 ==> r is Ok,
    {
        let ghost m = self.leaf_hashes();
        let mut asked: Vec<(H256, H256)> = Vec::new();
        let mut i: usize = 0;
        while i < keys.len()
            invariant
                i <= keys.len(),
                m == self.leaf_hashes(),
                asked@.len() == i,
                forall|j: int|
                    0 <= j < i ==> #[trigger] asked@[j] == (keys@[j], leaf_hash(m, keys@[j])),
            decreases keys.len() - i,
        {
            let value = match self.get(&keys[i]) {
                Ok(value) => value,
                Err(e) => {
                    return Err(e);
                },
            };
            proof {
                V::lemma_zero_hash();
            }
            asked.push((keys[i], value.to_h256()));
            i += 1;
        }
        proof {
            assert(asked@ =~= value_claims(m, keys@));
        }
        let claims = normalized(&asked);
        proof {
            lemma_normal_claims(m, keys@, claims@);
            if keys@.len() == 0 && claims@.len() > 0 {
                lemma_map_of_normal(claims@);
                assert(map_of(claims@).contains_key(claims@[0].0));
            }
        }
        proof {
            if keys@.len() > 0 && claims@.len() == 0 {
                assert(asked@[0].0 == keys@[0]);
                assert(key_at(asked@, 0, keys@[0]));
                if forall|j: int| 0 < j ==> !key_at(asked@, j, keys@[0]) {
                    lemma_map_of_last(asked@, keys@[0], 0);
                } else {
                    let j = last_with_key(asked@, keys@[0], asked@.len() - 1);
                    lemma_map_of_last(asked@, keys@[0], j);
                }
                assert(map_of(claims@).contains_key(keys@[0]));
                assert(map_of(claims@) =~= Map::<H256, H256>::empty());
            }
            if claims@.len() > 0 || self.root_spec() == H256::zero_spec() {
                lemma_multi_proof_root::<H>(m, claims@);
            }
        }
        let mut out: Vec<u8> = Vec::new();
        if claims.len() == 0 {
            return Ok((claims, out));
        }
        let zero = H256::zero();
        proof {
            broadcast use H256::lemma_prefix_bit, H256::lemma_zero_bit;

            H256::lemma_bits_ext(zero.prefix(256), zero);
            assert forall|j: int| 0 <= j < claims@.len() implies (#[trigger] claims@[j]).0.prefix(
                256,
            ) == zero by {
                H256::lemma_bits_ext(claims@[j].0.prefix(256), zero);
            }
        }
        let pending = match self.subtree_proof(&claims, 0, claims.len(), 256, zero, &mut out) {
            Ok(pending) => pending,
            Err(e) => {
                return Err(e);
            },
        };
        write_zeros(&mut out, pending);
        proof {
            assert(out@ =~= multi_proof::<H>(m, claims@));
        }
        Ok((claims, out))
    }

    /// Writes each pair of `pairs`, in their order, and returns the new root.
    /// Of two pairs with the same key the later one counts. Where a write
    /// fails, the pairs before it are written and the root is left as it
    /// was before the batch.
    pub fn update_all(&mut self, pairs: Vec<(H256, V)>) -> (r: Result<H256, Error>)
        requires
            old(self).wf(),
        ensures
            r matches Ok(root) ==> final(self).wf() && root == final(self).root_spec()
                && final(self).leaves() == updated_all(old(self).leaves(), pairs@),
            r matches Err(e) ==> e is Store,
            r is Err ==> final(self).root_spec() == old(self).root_spec(),
            old(self).store_spec().reliable() ==> r is Ok && final(self).store_spec().reliable(),
    {
        let root_before = self.root;
        let mut pairs = pairs;
        let ghost all = pairs@;
        let mut rest: Vec<(H256, V)> = Vec::new();
        // take the pairs from the back, so that each can be moved out
        while pairs.len() > 0
            invariant
                all == pairs@ + rest@.reverse(),
            decreases pairs.len(),
        {
            let ghost before = pairs@;
            let ghost rest_before = rest@;
            let last = pairs.pop().unwrap();
            rest.push(last);
            proof {
                assert(rest@.reverse() =~= seq![last] + rest_before.reverse());
                assert(before =~= pairs@ + seq![last]);
                assert(all =~= pairs@ + rest@.reverse());
            }
        }
        proof {
            assert(all =~= rest@.reverse());
        }
        let ghost start = self.leaves();
        let ghost mut done: Seq<(H256, V)> = Seq::empty();
        while rest.len() > 0
            invariant
                self.wf(),
                root_before == old(self).root,
                old(self).store_spec().reliable() ==> self.store_spec().reliable(),
                all == done + rest@.reverse(),
                self.leaves() == updated_all(start, done),
            decreases rest.len(),
        {
            let ghost rest_before = rest@;
            let pair = rest.pop().unwrap();
            proof {
                assert(rest_before.reverse() =~= seq![pair] + rest@.reverse());
                assert(done.push(pair).drop_last() =~= done);
                assert(all =~= done.push(pair) + rest@.reverse());
            }
            match self.update(pair.0, pair.1) {
                Ok(_) => {},
                Err(e) => {
                    self.root = root_before;
                    return Err(e);
                },
            }
            proof {
                done = done.push(pair);
            }
        }
        proof {
            assert(all =~= done);
        }
        Ok(self.root)
    }
}

} // verus!

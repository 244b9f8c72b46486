//! How the hash of a node is made from the hashes of its children, and what
//! the hash of each node of a tree is.

use crate::h256::H256;
use crate::traits::Hasher;
use vstd::prelude::*;

verus! {

/// The bytes that are hashed for a branch node: the height, the node key, the
/// left child and the right child, in this order.
pub open spec fn merge_input(height: int, node_key: H256, lhs: H256, rhs: H256) -> Seq<u8> {
    seq![height as u8] + node_key@ + lhs@ + rhs@
}

/// What is hashed for a branch node tells the height, the node key and the
/// two children apart, the left child from the right one too.
pub proof fn lemma_merge_input_injective(
    h1: int,
    k1: H256,
    l1: H256,
    r1: H256,
    h2: int,
    k2: H256,
    l2: H256,
    r2: H256,
)
    requires
        0 <= h1 < 256,
        0 <= h2 < 256,
        merge_input(h1, k1, l1, r1) == merge_input(h2, k2, l2, r2),
    ensures
        h1 == h2,
        k1 == k2,
        l1 == l2,
        r1 == r2,
{
    broadcast use vstd::array::group_array_axioms;

    let a = merge_input(h1, k1, l1, r1);
    let b = merge_input(h2, k2, l2, r2);
    assert(a[0] == h1 as u8 && b[0] == h2 as u8);
    assert(a.subrange(1, 33) =~= k1@ && b.subrange(1, 33) =~= k2@);
    assert(a.subrange(33, 65) =~= l1@ && b.subrange(33, 65) =~= l2@);
    assert(a.subrange(65, 97) =~= r1@ && b.subrange(65, 97) =~= r2@);
    H256::lemma_view_injective(k1, k2);
    H256::lemma_view_injective(l1, l2);
    H256::lemma_view_injective(r1, r2);
}

/// The hash of the branch node at `height` with key `node_key` and the
/// children `lhs` and `rhs`: zero where both children are zero, else the
/// digest of `merge_input`.
pub open spec fn merge_spec<H: Hasher>(height: int, node_key: H256, lhs: H256, rhs: H256) -> H256 {
    if lhs == H256::zero_spec() && rhs == H256::zero_spec() {
        H256::zero_spec()
    } else {
        H::digest(merge_input(height, node_key, lhs, rhs))
    }
}

/// The hash of the branch node at `height` with key `node_key` and the
/// children `lhs` and `rhs`.
pub fn merge<H: Hasher>(height: u8, node_key: &H256, lhs: &H256, rhs: &H256) -> (r: H256)
    ensures
        r == merge_spec::<H>(height as int, *node_key, *lhs, *rhs),
{
    if lhs.is_zero() && rhs.is_zero() {
        return H256::zero();
    }
    let mut hasher = H::new();
    hasher.write_byte(height);
    hasher.write_h256(node_key);
    hasher.write_h256(lhs);
    hasher.write_h256(rhs);
    proof {
        assert(hasher.written() =~= merge_input(height as int, *node_key, *lhs, *rhs));
    }
    hasher.finish()
}

/// The hash under which a key stands in a tree of leaf hashes: zero where the
/// tree holds nothing under the key.
pub open spec fn leaf_hash(m: Map<H256, H256>, k: H256) -> H256 {
    if m.contains_key(k) {
        m[k]
    } else {
        H256::zero_spec()
    }
}

/// The hash of the node `h` levels above the leaves whose leftmost leaf is
/// `p`: the leaf hash for `h == 0`, else the merge of the two children at
/// height `h - 1`.
pub open spec fn node_hash<H: Hasher>(m: Map<H256, H256>, h: nat, p: H256) -> H256
    decreases h,
{
    if h == 0 {
        leaf_hash(m, p)
    } else {
        merge_spec::<H>(
            h - 1,
            p,
            node_hash::<H>(m, (h - 1) as nat, p),
            node_hash::<H>(m, (h - 1) as nat, p.with_bit(h - 1)),
        )
    }
}

/// The root hash of a tree of leaf hashes.
pub open spec fn root_hash<H: Hasher>(m: Map<H256, H256>) -> H256 {
    node_hash::<H>(m, 256, H256::zero_spec())
}

/// Whether `k` lies in the subtree `h` levels above the leaves whose leftmost
/// leaf is `p`.
pub open spec fn in_subtree(k: H256, h: nat, p: H256) -> bool {
    k.prefix(h as int) == p
}

/// The hash of a node depends on the leaves below it alone.
pub proof fn lemma_node_hash_local<H: Hasher>(
    m1: Map<H256, H256>,
    m2: Map<H256, H256>,
    h: nat,
    p: H256,
)
    requires
        h <= 256,
        p.prefix(h as int) == p,
        forall|k: H256| in_subtree(k, h, p) ==> leaf_hash(m1, k) == leaf_hash(m2, k),
    ensures
        node_hash::<H>(m1, h, p) == node_hash::<H>(m2, h, p),
    decreases h,
{
    broadcast use H256::lemma_prefix_bit, H256::lemma_with_bit_bit;

    if h == 0 {
        assert(in_subtree(p, 0, p));
    } else {
        let g = (h - 1) as nat;
        let q = p.with_bit(h - 1);
        lemma_child_keys(p, h);
        assert forall|k: H256| in_subtree(k, g, p) implies leaf_hash(m1, k) == leaf_hash(
            m2,
            k,
        ) by {
            lemma_prefix_of_prefix(k, g as int, h as int);
            assert(in_subtree(k, h, p));
        }
        assert forall|k: H256| in_subtree(k, g, q) implies leaf_hash(m1, k) == leaf_hash(
            m2,
            k,
        ) by {
            lemma_prefix_of_prefix(k, g as int, h as int);
            assert(in_subtree(k, h, p));
        }
        lemma_node_hash_local::<H>(m1, m2, g, p);
        lemma_node_hash_local::<H>(m1, m2, g, q);
    }
}

/// Clearing the bits below `a` and then those below `b` clears those below
/// the larger of the two.
pub proof fn lemma_prefix_of_prefix(k: H256, a: int, b: int)
    requires
        0 <= a <= b <= 256,
    ensures
        k.prefix(a).prefix(b) == k.prefix(b),
        k.prefix(b).prefix(a) == k.prefix(b),
{
    broadcast use H256::lemma_prefix_bit;

    H256::lemma_bits_ext(k.prefix(a).prefix(b), k.prefix(b));
    H256::lemma_bits_ext(k.prefix(b).prefix(a), k.prefix(b));
}

/// The two children of the node at `h` with key `p` have the keys `p` and
/// `p.with_bit(h - 1)`; both lie below `p`.
pub proof fn lemma_child_keys(p: H256, h: nat)
    requires
        0 < h <= 256,
        p.prefix(h as int) == p,
    ensures
        p.prefix(h - 1) == p,
        p.with_bit(h - 1).prefix(h - 1) == p.with_bit(h - 1),
        p.with_bit(h - 1).prefix(h as int) == p,
        !p.bit(h - 1),
        p.with_bit(h - 1).bit(h - 1),
{
    broadcast use H256::lemma_prefix_bit, H256::lemma_with_bit_bit;

    let q = p.with_bit(h - 1);
    assert forall|i: int| 0 <= i < 256 implies p.bit(i) == (i >= h && p.bit(i)) by {
        assert(p.prefix(h as int).bit(i) == (i >= h && p.bit(i)));
    }
    H256::lemma_bits_ext(p.prefix(h - 1), p);
    H256::lemma_bits_ext(q.prefix(h - 1), q);
    H256::lemma_bits_ext(q.prefix(h as int), p);
}

/// A subtree in which every leaf is zero has the zero hash.
pub proof fn lemma_empty_subtree<H: Hasher>(m: Map<H256, H256>, h: nat, p: H256)
    requires
        h <= 256,
        p.prefix(h as int) == p,
        forall|k: H256| in_subtree(k, h, p) ==> leaf_hash(m, k) == H256::zero_spec(),
    ensures
        node_hash::<H>(m, h, p) == H256::zero_spec(),
    decreases h,
{
    if h == 0 {
        assert(in_subtree(p, 0, p));
    } else {
        let g = (h - 1) as nat;
        let q = p.with_bit(h - 1);
        lemma_child_keys(p, h);
        assert forall|k: H256| in_subtree(k, g, p) implies leaf_hash(m, k)
            == H256::zero_spec() by {
            lemma_prefix_of_prefix(k, g as int, h as int);
            assert(in_subtree(k, h, p));
        }
        assert forall|k: H256| in_subtree(k, g, q) implies leaf_hash(m, k)
            == H256::zero_spec() by {
            lemma_prefix_of_prefix(k, g as int, h as int);
            assert(in_subtree(k, h, p));
        }
        lemma_empty_subtree::<H>(m, g, p);
        lemma_empty_subtree::<H>(m, g, q);
    }
}

/// The key of the sibling of the node at height `h` on the path of `key`.
pub open spec fn sibling_key(key: H256, h: int) -> H256 {
    if key.bit(h) {
        key.prefix(h + 1)
    } else {
        key.prefix(h + 1).with_bit(h)
    }
}

/// The hash of the sibling of the node at height `h` on the path of `key`.
pub open spec fn sibling_hash<H: Hasher>(m: Map<H256, H256>, key: H256, h: nat) -> H256 {
    node_hash::<H>(m, h, sibling_key(key, h as int))
}

/// The keys of the nodes around the node at height `h` on the path of `key`.
pub proof fn lemma_path_keys(key: H256, h: nat)
    requires
        h < 256,
    ensures
        key.prefix(h as int).prefix(h as int) == key.prefix(h as int),
        key.prefix(h as int).prefix(h as int + 1) == key.prefix(h as int + 1),
        key.prefix(h as int + 1).prefix(h as int + 1) == key.prefix(h as int + 1),
        key.prefix(h as int).bit(h as int) == key.bit(h as int),
        key.bit(h as int) ==> key.prefix(h as int) == key.prefix(h as int + 1).with_bit(h as int),
        !key.bit(h as int) ==> key.prefix(h as int) == key.prefix(h as int + 1),
        sibling_key(key, h as int).prefix(h as int) == sibling_key(key, h as int),
        sibling_key(key, h as int).prefix(h as int + 1) == key.prefix(h as int + 1),
        sibling_key(key, h as int) != key.prefix(h as int),
{
    broadcast use H256::lemma_prefix_bit, H256::lemma_with_bit_bit;

    let p = key.prefix(h as int + 1);
    let c = key.prefix(h as int);
    let s = sibling_key(key, h as int);
    lemma_prefix_of_prefix(key, h as int, h as int);
    lemma_prefix_of_prefix(key, h as int, h as int + 1);
    lemma_prefix_of_prefix(key, h as int + 1, h as int + 1);
    lemma_child_keys(p, h + 1);
    if key.bit(h as int) {
        H256::lemma_bits_ext(c, p.with_bit(h as int));
    } else {
        H256::lemma_bits_ext(c, p);
    }
    assert(s.bit(h as int) != c.bit(h as int));
}

/// The hash of the node at height `h + 1` on the path of `key` is the merge
/// of the node at height `h` on the path and of its sibling, the right one of
/// the two being the one whose key has bit `h` set.
pub proof fn lemma_path_step<H: Hasher>(m: Map<H256, H256>, key: H256, h: nat)
    requires
        h < 256,
    ensures
        node_hash::<H>(m, h + 1, key.prefix(h as int + 1)) == (if key.bit(h as int) {
            merge_spec::<H>(
                h as int,
                key.prefix(h as int + 1),
                sibling_hash::<H>(m, key, h),
                node_hash::<H>(m, h, key.prefix(h as int)),
            )
        } else {
            merge_spec::<H>(
                h as int,
                key.prefix(h as int + 1),
                node_hash::<H>(m, h, key.prefix(h as int)),
                sibling_hash::<H>(m, key, h),
            )
        }),
{
    lemma_path_keys(key, h);
}

/// A change of the leaf under `key` leaves the siblings of its path as they
/// are.
pub proof fn lemma_sibling_unchanged<H: Hasher>(
    m: Map<H256, H256>,
    m2: Map<H256, H256>,
    key: H256,
    h: nat,
)
    requires
        h < 256,
        forall|k: H256| k != key ==> leaf_hash(m, k) == leaf_hash(m2, k),
    ensures
        sibling_hash::<H>(m, key, h) == sibling_hash::<H>(m2, key, h),
{
    lemma_path_keys(key, h);
    lemma_node_hash_local::<H>(m, m2, h, sibling_key(key, h as int));
}

} // verus!

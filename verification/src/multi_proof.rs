//! Compact proofs for several keys at once: one program that rebuilds the
//! root from all the claimed leaves, with the siblings that no claimed leaf
//! lies below.
//!
//! The claimed leaves stand in the order of their keys, which is the order of
//! the leaves of the tree from left to right. The program for a subtree that
//! holds claimed leaves on both sides is the program for the left side, the
//! program for the right side, and `OP_JOIN`. Where the claimed leaves lie on
//! one side only, it is the program for that side, followed by the sibling:
//! `OP_SIBLING` with its hash, or one more zero in a run of zero siblings
//! that ends in one `OP_ZEROS`.

use crate::h256::H256;
use crate::merge::{
    leaf_hash, lemma_child_keys, lemma_path_keys, node_hash, root_hash, sibling_hash, sibling_key,
};
use crate::merkle_proof::{
    are_siblings, leaf_node, lemma_merge_up_path, lemma_merge_zeros_path, lemma_run_sibling,
    lemma_run_zeros, merge_up, path_node, path_program, path_proof, proof_root, run,
    zeros_instruction, Machine, ProofNode, OP_JOIN, OP_LEAF, OP_SIBLING,
};
use crate::pairs::{is_normal, lemma_map_of_normal, map_of};
use crate::traits::Hasher;
use vstd::prelude::*;

verus! {

/// The index of the first leaf from `lo` on whose key has bit `b` set, or
/// `hi` if there is none before `hi`.
pub open spec fn split_at(leaves: Seq<(H256, H256)>, lo: int, hi: int, b: int) -> int
    decreases hi - lo,
{
    if lo >= hi || leaves[lo].0.bit(b) {
        lo
    } else {
        split_at(leaves, lo + 1, hi, b)
    }
}

/// A program and the zero siblings after it that are not written yet, one
/// level further up, where the sibling at that level is `sibling`.
pub open spec fn with_sibling(done: (Seq<u8>, nat), sibling: H256) -> (Seq<u8>, nat) {
    if sibling == H256::zero_spec() {
        (done.0, done.1 + 1)
    } else {
        (done.0 + zeros_instruction(done.1) + (seq![OP_SIBLING] + sibling@), 0nat)
    }
}

/// The program that rebuilds the node `h` levels above the leaves whose
/// leftmost leaf is `p`, from the claimed leaves `lo` to `hi - 1`, which are
/// those that lie below that node; and the number of zero siblings at the end
/// of the way for which no instruction is written yet.
pub open spec fn subtree_program<H: Hasher>(
    m: Map<H256, H256>,
    leaves: Seq<(H256, H256)>,
    lo: int,
    hi: int,
    h: nat,
    p: H256,
) -> (Seq<u8>, nat)
    decreases h,
{
    if h == 0 {
        (seq![OP_LEAF], 0nat)
    } else {
        let b = (h - 1) as nat;
        let q = p.with_bit(b as int);
        let mid = split_at(leaves, lo, hi, b as int);
        if mid >= hi {
            with_sibling(subtree_program::<H>(m, leaves, lo, hi, b, p), node_hash::<H>(m, b, q))
        } else if mid <= lo {
            with_sibling(subtree_program::<H>(m, leaves, lo, hi, b, q), node_hash::<H>(m, b, p))
        } else {
            let left = subtree_program::<H>(m, leaves, lo, mid, b, p);
            let right = subtree_program::<H>(m, leaves, mid, hi, b, q);
            (
                left.0 + zeros_instruction(left.1) + (right.0 + zeros_instruction(right.1))
                    + seq![OP_JOIN],
                0nat,
            )
        }
    }
}

/// The compact proof for the keys of `leaves`, which stand in the order of
/// their keys, in the tree of the leaf hashes `m`. For no keys it is empty.
pub open spec fn multi_proof<H: Hasher>(m: Map<H256, H256>, leaves: Seq<(H256, H256)>) -> Seq<u8> {
    if leaves.len() == 0 {
        Seq::empty()
    } else {
        let done = subtree_program::<H>(m, leaves, 0, leaves.len() as int, 256, H256::zero_spec());
        done.0 + zeros_instruction(done.1)
    }
}

/// Whether the leaves `lo` to `hi - 1` lie below the node `h` levels above
/// the leaves whose leftmost leaf is `p`.
pub open spec fn all_below(leaves: Seq<(H256, H256)>, lo: int, hi: int, h: nat, p: H256) -> bool {
    forall|i: int| lo <= i < hi ==> (#[trigger] leaves[i]).0.prefix(h as int) == p
}

/// Whether each of the leaves has the value that the tree of the leaf hashes
/// `m` holds under its key.
pub open spec fn are_leaves_of(m: Map<H256, H256>, leaves: Seq<(H256, H256)>) -> bool {
    forall|i: int| 0 <= i < leaves.len() ==> (#[trigger] leaves[i]).1 == leaf_hash(m, leaves[i].0)
}

/// Before the split no key has the bit set; at the split the key has it set.
pub proof fn lemma_split(leaves: Seq<(H256, H256)>, lo: int, hi: int, b: int)
    requires
        lo <= hi,
    ensures
        lo <= split_at(leaves, lo, hi, b) <= hi,
        forall|i: int| lo <= i < split_at(leaves, lo, hi, b) ==> !(#[trigger] leaves[i]).0.bit(b),
        split_at(leaves, lo, hi, b) < hi ==> leaves[split_at(leaves, lo, hi, b)].0.bit(b),
    decreases hi - lo,
{
    if lo < hi && !leaves[lo].0.bit(b) {
        lemma_split(leaves, lo + 1, hi, b);
    }
}

/// A key with bit `h - 1` of the node key `p` at height `h` lies below the
/// left child of that node if the bit is clear, else below the right child.
pub proof fn lemma_child_of(k: H256, h: nat, p: H256)
    requires
        1 <= h <= 256,
        k.prefix(h as int) == p,
    ensures
        !k.bit(h - 1) ==> k.prefix(h - 1) == p,
        k.bit(h - 1) ==> k.prefix(h - 1) == p.with_bit(h - 1),
{
    broadcast use H256::lemma_prefix_bit, H256::lemma_with_bit_bit;

    assert forall|i: int| 0 <= i < 256 implies p.bit(i) == (i >= h && k.bit(i)) by {
        assert(k.prefix(h as int).bit(i) == (i >= h && k.bit(i)));
    }
    if k.bit(h - 1) {
        H256::lemma_bits_ext(k.prefix(h - 1), p.with_bit(h - 1));
    } else {
        H256::lemma_bits_ext(k.prefix(h - 1), p);
    }
}

/// In leaves that stand in the order of their keys, those below a node that
/// come before the split lie below its left child, the others below its
/// right child.
pub proof fn lemma_split_sorted(leaves: Seq<(H256, H256)>, lo: int, hi: int, h: nat, p: H256)
    requires
        is_normal(leaves),
        0 <= lo <= hi <= leaves.len(),
        1 <= h <= 256,
        all_below(leaves, lo, hi, h, p),
    ensures
        all_below(leaves, lo, split_at(leaves, lo, hi, h - 1), (h - 1) as nat, p),
        all_below(
            leaves,
            split_at(leaves, lo, hi, h - 1),
            hi,
            (h - 1) as nat,
            p.with_bit(h - 1),
        ),
{
    let b = h - 1;
    let mid = split_at(leaves, lo, hi, b);
    lemma_split(leaves, lo, hi, b);
    assert forall|i: int| lo <= i < mid implies (#[trigger] leaves[i]).0.prefix(b) == p by {
        lemma_child_of(leaves[i].0, h, p);
    }
    assert forall|i: int| mid <= i < hi implies (#[trigger] leaves[i]).0.prefix(b) == p.with_bit(
        b,
    ) by {
        if i > mid && !leaves[i].0.bit(b) {
            assert(leaves[mid].0.lt_spec(leaves[i].0));
            H256::lemma_order_by_bit(leaves[mid].0, leaves[i].0, h as int);
        }
        lemma_child_of(leaves[i].0, h, p);
    }
}

/// An `OP_LEAF` instruction pushes the next claimed leaf.
pub proof fn lemma_run_leaf<H: Hasher>(
    leaves: Seq<(H256, H256)>,
    below: Seq<ProofNode>,
    used: nat,
    rest: Seq<u8>,
)
    requires
        used < leaves.len(),
    ensures
        run::<H>(leaves, Machine { stack: below, used }, seq![OP_LEAF] + rest) == run::<H>(
            leaves,
            Machine { stack: below.push(leaf_node(leaves[used as int])), used: used + 1 },
            rest,
        ),
{
    let program = seq![OP_LEAF] + rest;
    assert(program[0] == OP_LEAF);
    assert(program.skip(1) =~= rest);
}

/// An `OP_JOIN` instruction merges the two topmost entries, where they are
/// the children of one node.
pub proof fn lemma_run_join<H: Hasher>(
    leaves: Seq<(H256, H256)>,
    below: Seq<ProofNode>,
    used: nat,
    a: ProofNode,
    b: ProofNode,
    rest: Seq<u8>,
)
    requires
        are_siblings(a, b),
    ensures
        run::<H>(leaves, Machine { stack: below.push(a).push(b), used }, seq![OP_JOIN] + rest)
            == run::<H>(
            leaves,
            Machine { stack: below.push(merge_up::<H>(a, b.value)), used },
            rest,
        ),
{
    let program = seq![OP_JOIN] + rest;
    let now = Machine { stack: below.push(a).push(b), used };
    assert(program[0] == OP_JOIN);
    assert(program.skip(1) =~= rest);
    assert(now.stack.drop_last().drop_last() =~= below);
}

/// Where leaves in the order of their keys lie below a node at height 0, there
/// is one of them, and `OP_LEAF` pushes it.
proof fn lemma_subtree_leaf<H: Hasher>(
    claims: Seq<(H256, H256)>,
    below: Seq<ProofNode>,
    m: Map<H256, H256>,
    lo: int,
    hi: int,
    p: H256,
    rest: Seq<u8>,
)
    requires
        is_normal(claims),
        are_leaves_of(m, claims),
        0 <= lo < hi <= claims.len(),
        all_below(claims, lo, hi, 0, p),
    ensures
        hi == lo + 1,
        run::<H>(claims, Machine { stack: below, used: lo as nat }, seq![OP_LEAF] + rest)
            == run::<H>(
            claims,
            Machine { stack: below.push(path_node::<H>(m, claims[lo].0, 0)), used: hi as nat },
            rest,
        ),
{
    let k = claims[lo].0;
    assert(k.prefix(0) == k) by {
        broadcast use H256::lemma_prefix_bit;

        H256::lemma_bits_ext(k.prefix(0), k);
    }
    if hi > lo + 1 {
        let k2 = claims[lo + 1].0;
        assert(k2.prefix(0) == k2) by {
            broadcast use H256::lemma_prefix_bit;

            H256::lemma_bits_ext(k2.prefix(0), k2);
        }
        assert(k.lt_spec(k2));
        H256::lemma_lt_irreflexive(k);
    }
    lemma_run_leaf::<H>(claims, below, lo as nat, rest);
    assert(leaf_node(claims[lo]) == path_node::<H>(m, k, 0));
}

/// The sibling of the child on the path of a key is the other child of the
/// node.
proof fn lemma_sibling_of_child(k: H256, h: nat, p: H256)
    requires
        1 <= h <= 256,
        k.prefix(h as int) == p,
    ensures
        sibling_key(k, h - 1) == (if k.bit(h - 1) {
            p
        } else {
            p.with_bit(h - 1)
        }),
{
}

/// After the program for the one side of a node that holds claimed leaves,
/// the zero siblings not yet written and a sibling that is not zero lead to
/// the node.
proof fn lemma_one_side<H: Hasher>(
    claims: Seq<(H256, H256)>,
    below: Seq<ProofNode>,
    m: Map<H256, H256>,
    k: H256,
    start: Machine,
    hi: nat,
    b: nat,
    child: (Seq<u8>, nat),
    rest: Seq<u8>,
)
    requires
        b < 256,
        child.1 <= b,
        forall|j: nat|
            b - child.1 <= j < b ==> #[trigger] sibling_hash::<H>(m, k, j) == H256::zero_spec(),
        sibling_hash::<H>(m, k, b) != H256::zero_spec(),
        run::<H>(
            claims,
            start,
            child.0 + (zeros_instruction(child.1) + (seq![OP_SIBLING] + sibling_hash::<H>(
                m,
                k,
                b,
            )@ + rest)),
        ) == run::<H>(
            claims,
            Machine {
                stack: below.push(path_node::<H>(m, k, (b - child.1) as nat)),
                used: hi,
            },
            zeros_instruction(child.1) + (seq![OP_SIBLING] + sibling_hash::<H>(m, k, b)@ + rest),
        ),
    ensures
        run::<H>(claims, start, with_sibling(child, sibling_hash::<H>(m, k, b)).0 + rest)
            == run::<H>(
            claims,
            Machine { stack: below.push(path_node::<H>(m, k, b + 1)), used: hi },
            rest,
        ),
{
    let s = sibling_hash::<H>(m, k, b);
    let tail = seq![OP_SIBLING] + s@ + rest;
    let rest1 = zeros_instruction(child.1) + tail;
    let base = path_node::<H>(m, k, (b - child.1) as nat);
    assert(with_sibling(child, s).0 + rest =~= child.0 + rest1);
    lemma_run_zeros::<H>(claims, below, hi, base, child.1, tail);
    lemma_merge_zeros_path::<H>(m, k, (b - child.1) as nat, child.1);
    lemma_run_sibling::<H>(claims, below, hi, path_node::<H>(m, k, b), s, rest);
    lemma_merge_up_path::<H>(m, k, b);
}

/// After the programs for the two sides of a node, each with its zero
/// siblings, `OP_JOIN` leads to the node.
proof fn lemma_two_sides<H: Hasher>(
    claims: Seq<(H256, H256)>,
    below: Seq<ProofNode>,
    m: Map<H256, H256>,
    k: H256,
    k2: H256,
    start: Machine,
    mid: nat,
    hi: nat,
    b: nat,
    left: (Seq<u8>, nat),
    right: (Seq<u8>, nat),
    p: H256,
    rest: Seq<u8>,
)
    requires
        b < 256,
        left.1 <= b,
        right.1 <= b,
        forall|j: nat|
            b - left.1 <= j < b ==> #[trigger] sibling_hash::<H>(m, k, j) == H256::zero_spec(),
        forall|j: nat|
            b - right.1 <= j < b ==> #[trigger] sibling_hash::<H>(m, k2, j) == H256::zero_spec(),
        p.prefix(b as int + 1) == p,
        k.prefix(b as int) == p,
        k2.prefix(b as int) == p.with_bit(b as int),
        run::<H>(
            claims,
            start,
            left.0 + (zeros_instruction(left.1) + (right.0 + (zeros_instruction(right.1) + (
            seq![OP_JOIN] + rest)))),
        ) == run::<H>(
            claims,
            Machine { stack: below.push(path_node::<H>(m, k, (b - left.1) as nat)), used: mid },
            zeros_instruction(left.1) + (right.0 + (zeros_instruction(right.1) + (seq![OP_JOIN]
                + rest))),
        ),
        run::<H>(
            claims,
            Machine { stack: below.push(path_node::<H>(m, k, b)), used: mid },
            right.0 + (zeros_instruction(right.1) + (seq![OP_JOIN] + rest)),
        ) == run::<H>(
            claims,
            Machine {
                stack: below.push(path_node::<H>(m, k, b)).push(
                    path_node::<H>(m, k2, (b - right.1) as nat),
                ),
                used: hi,
            },
            zeros_instruction(right.1) + (seq![OP_JOIN] + rest),
        ),
    ensures
        run::<H>(
            claims,
            start,
            left.0 + zeros_instruction(left.1) + (right.0 + zeros_instruction(right.1))
                + seq![OP_JOIN] + rest,
        ) == run::<H>(
            claims,
            Machine { stack: below.push(path_node::<H>(m, k, b + 1)), used: hi },
            rest,
        ),
{
    let tail = seq![OP_JOIN] + rest;
    let rest_r = zeros_instruction(right.1) + tail;
    let rest_l = zeros_instruction(left.1) + (right.0 + rest_r);
    let node_l = path_node::<H>(m, k, b);
    let node_r = path_node::<H>(m, k2, b);
    let below2 = below.push(node_l);
    assert(left.0 + zeros_instruction(left.1) + (right.0 + zeros_instruction(right.1))
        + seq![OP_JOIN] + rest =~= left.0 + rest_l);
    lemma_run_zeros::<H>(
        claims,
        below,
        mid,
        path_node::<H>(m, k, (b - left.1) as nat),
        left.1,
        right.0 + rest_r,
    );
    lemma_merge_zeros_path::<H>(m, k, (b - left.1) as nat, left.1);
    lemma_run_zeros::<H>(
        claims,
        below2,
        hi,
        path_node::<H>(m, k2, (b - right.1) as nat),
        right.1,
        tail,
    );
    lemma_merge_zeros_path::<H>(m, k2, (b - right.1) as nat, right.1);
    lemma_child_keys(p, b + 1);
    assert(are_siblings(node_l, node_r));
    lemma_run_join::<H>(claims, below, hi, node_l, node_r, rest);
    assert(k.prefix(b as int + 1) == p) by {
        crate::merge::lemma_prefix_of_prefix(k, b as int, b as int + 1);
    }
    assert(merge_up::<H>(node_l, node_r.value) == path_node::<H>(m, k, b + 1));
}

/// The program for a subtree leads from the stack as it is to the stack with
/// the node of that subtree on top, but for the zero siblings at the end of
/// the way: it takes up the claimed leaves below the node, and what follows
/// the program runs after it.
pub proof fn lemma_run_subtree<H: Hasher>(
    claims: Seq<(H256, H256)>,
    below: Seq<ProofNode>,
    m: Map<H256, H256>,
    lo: int,
    hi: int,
    h: nat,
    p: H256,
    rest: Seq<u8>,
)
    requires
        is_normal(claims),
        are_leaves_of(m, claims),
        0 <= lo < hi <= claims.len(),
        h <= 256,
        p.prefix(h as int) == p,
        all_below(claims, lo, hi, h, p),
    ensures
        ({
            let done = subtree_program::<H>(m, claims, lo, hi, h, p);
            let k = claims[lo].0;
            &&& done.1 <= h
            &&& forall|j: nat|
                h - done.1 <= j < h ==> #[trigger] sibling_hash::<H>(m, k, j) == H256::zero_spec()
            &&& run::<H>(claims, Machine { stack: below, used: lo as nat }, done.0 + rest)
                == run::<H>(
                claims,
                Machine {
                    stack: below.push(path_node::<H>(m, k, (h - done.1) as nat)),
                    used: hi as nat,
                },
                rest,
            )
        }),
    decreases h,
{
    let done = subtree_program::<H>(m, claims, lo, hi, h, p);
    let k = claims[lo].0;
    let start = Machine { stack: below, used: lo as nat };
    assert(k.prefix(h as int) == p);
    if h == 0 {
        lemma_subtree_leaf::<H>(claims, below, m, lo, hi, p, rest);
    } else {
        let b = (h - 1) as nat;
        let q = p.with_bit(b as int);
        let mid = split_at(claims, lo, hi, b as int);
        lemma_split(claims, lo, hi, b as int);
        lemma_split_sorted(claims, lo, hi, h, p);
        lemma_child_keys(p, h);
        lemma_child_of(k, h, p);
        lemma_sibling_of_child(k, h, p);
        if mid >= hi || mid <= lo {
            let side = if mid >= hi { p } else { q };
            let other = if mid >= hi { q } else { p };
            let child = subtree_program::<H>(m, claims, lo, hi, b, side);
            let s = node_hash::<H>(m, b, other);
            assert(s == sibling_hash::<H>(m, k, b));
            assert(done == with_sibling(child, s));
            if s == H256::zero_spec() {
                lemma_run_subtree::<H>(claims, below, m, lo, hi, b, side, rest);
            } else {
                let rest1 = zeros_instruction(child.1) + (seq![OP_SIBLING] + s@ + rest);
                lemma_run_subtree::<H>(claims, below, m, lo, hi, b, side, rest1);
                lemma_one_side::<H>(claims, below, m, k, start, hi as nat, b, child, rest);
            }
        } else {
            let k2 = claims[mid].0;
            let left = subtree_program::<H>(m, claims, lo, mid, b, p);
            let right = subtree_program::<H>(m, claims, mid, hi, b, q);
            let rest_r = zeros_instruction(right.1) + (seq![OP_JOIN] + rest);
            let rest_l = zeros_instruction(left.1) + (right.0 + rest_r);
            lemma_run_subtree::<H>(claims, below, m, lo, mid, b, p, rest_l);
            lemma_run_subtree::<H>(
                claims,
                below.push(path_node::<H>(m, k, b)),
                m,
                mid,
                hi,
                b,
                q,
                rest_r,
            );
            assert(k2.prefix(b as int) == q);
            lemma_two_sides::<H>(
                claims,
                below,
                m,
                k,
                k2,
                start,
                mid as nat,
                hi as nat,
                b,
                left,
                right,
                p,
                rest,
            );
        }
    }
}

/// The proof for the keys of the claimed leaves leads from these leaves to
/// the root of the tree, where the leaves stand in the order of their keys
/// and each has the value that the tree holds under its key. For no leaves
/// the proof is empty and leads to the zero root: it is the proof of the
/// tree whose root is zero.
pub proof fn lemma_multi_proof_root<H: Hasher>(m: Map<H256, H256>, claims: Seq<(H256, H256)>)
    requires
        is_normal(claims),
        are_leaves_of(m, claims),
        claims.len() > 0 || root_hash::<H>(m) == H256::zero_spec(),
    ensures
        proof_root::<H>(claims, multi_proof::<H>(m, claims)) == Some(root_hash::<H>(m)),
{
    if claims.len() > 0 {
        broadcast use H256::lemma_prefix_bit, H256::lemma_zero_bit;

        let z = H256::zero_spec();
        let n = claims.len() as int;
        let done = subtree_program::<H>(m, claims, 0, n, 256, z);
        let k = claims[0].0;
        H256::lemma_bits_ext(z.prefix(256), z);
        assert forall|i: int| 0 <= i < n implies (#[trigger] claims[i]).0.prefix(256) == z by {
            H256::lemma_bits_ext(claims[i].0.prefix(256), z);
        }
        let tail = zeros_instruction(done.1);
        lemma_run_subtree::<H>(claims, Seq::empty(), m, 0, n, 256, z, tail);
        let base = path_node::<H>(m, k, (256 - done.1) as nat);
        lemma_run_zeros::<H>(claims, Seq::empty(), n as nat, base, done.1, Seq::empty());
        lemma_merge_zeros_path::<H>(m, k, (256 - done.1) as nat, done.1);
        assert(tail + Seq::<u8>::empty() =~= tail);
    }
}

/// The claims for `keys` in the tree of the leaf hashes `m`: each key with
/// the leaf hash that the tree holds under it.
pub open spec fn value_claims(m: Map<H256, H256>, keys: Seq<H256>) -> Seq<(H256, H256)> {
    Seq::new(keys.len(), |i: int| (keys[i], leaf_hash(m, keys[i])))
}

/// Under each key, the map of the claims for some keys holds the leaf hash
/// of the tree.
pub proof fn lemma_value_claims(m: Map<H256, H256>, keys: Seq<H256>, k: H256)
    requires
        map_of(value_claims(m, keys)).contains_key(k),
    ensures
        map_of(value_claims(m, keys))[k] == leaf_hash(m, k),
    decreases keys.len(),
{
    let claims = value_claims(m, keys);
    if keys.len() > 0 {
        assert(claims.drop_last() =~= value_claims(m, keys.drop_last()));
        if claims.last().0 != k {
            lemma_value_claims(m, keys.drop_last(), k);
        }
    }
}

/// Claims in normal form that stand for the same map as the claims for some
/// keys are leaves of the tree.
pub proof fn lemma_normal_claims(m: Map<H256, H256>, keys: Seq<H256>, claims: Seq<(H256, H256)>)
    requires
        is_normal(claims),
        map_of(claims) == map_of(value_claims(m, keys)),
    ensures
        are_leaves_of(m, claims),
{
    lemma_map_of_normal(claims);
    assert forall|i: int| 0 <= i < claims.len() implies (#[trigger] claims[i]).1 == leaf_hash(
        m,
        claims[i].0,
    ) by {
        lemma_value_claims(m, keys, claims[i].0);
    }
}

/// At most as many zero siblings are left unwritten as the node is high.
pub proof fn lemma_pending_bound<H: Hasher>(
    m: Map<H256, H256>,
    leaves: Seq<(H256, H256)>,
    lo: int,
    hi: int,
    h: nat,
    p: H256,
)
    ensures
        subtree_program::<H>(m, leaves, lo, hi, h, p).1 <= h,
    decreases h,
{
    if h > 0 {
        let b = (h - 1) as nat;
        lemma_pending_bound::<H>(m, leaves, lo, hi, b, p);
        lemma_pending_bound::<H>(m, leaves, lo, hi, b, p.with_bit(b as int));
    }
}

/// For one claimed leaf, the program for a subtree on the path of its key and
/// the way from there to the root make up the proof for that key.
proof fn lemma_single_subtree<H: Hasher>(m: Map<H256, H256>, claims: Seq<(H256, H256)>, h: nat)
    requires
        claims.len() == 1,
        h <= 256,
    ensures
        ({
            let key = claims[0].0;
            let done = subtree_program::<H>(m, claims, 0, 1, h, key.prefix(h as int));
            path_proof::<H>(m, key) == done.0 + path_program::<H>(m, key, h, done.1)
        }),
    decreases h,
{
    let key = claims[0].0;
    let done = subtree_program::<H>(m, claims, 0, 1, h, key.prefix(h as int));
    if h == 0 {
        assert(path_proof::<H>(m, key) =~= done.0 + path_program::<H>(m, key, 0, 0));
    } else {
        let b = (h - 1) as nat;
        let p = key.prefix(h as int);
        lemma_single_subtree::<H>(m, claims, b);
        lemma_path_keys(key, b);
        lemma_sibling_of_child(key, h, p);
        assert(split_at(claims, 1, 1, b as int) == 1);
        let child = subtree_program::<H>(m, claims, 0, 1, b, key.prefix(b as int));
        let s = sibling_hash::<H>(m, key, b);
        assert(done == with_sibling(child, s));
        if s != H256::zero_spec() {
            assert(child.0 + path_program::<H>(m, key, b, child.1) =~= done.0
                + path_program::<H>(m, key, h, 0));
        }
    }
}

/// The proof for the one key of a single claim is the proof for that key.
pub proof fn lemma_single_key<H: Hasher>(m: Map<H256, H256>, key: H256, value: H256)
    ensures
        multi_proof::<H>(m, seq![(key, value)]) == path_proof::<H>(m, key),
{
    broadcast use H256::lemma_prefix_bit, H256::lemma_zero_bit;

    let claims = seq![(key, value)];
    H256::lemma_bits_ext(key.prefix(256), H256::zero_spec());
    lemma_single_subtree::<H>(m, claims, 256);
}

} // verus!

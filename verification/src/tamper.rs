//! What a change does to the root: a proof with a changed sibling hash, the
//! same proof for a changed value, or a tree with a changed leaf leads to
//! another root, where the hash function keeps apart the inputs that are
//! hashed on the way.
//!
//! No hash function keeps all inputs apart, so nothing here asks that of it.
//! What is asked is said of the merges that the two runs make, one after the
//! other: where the two inputs of a merge differ, their digests differ, and
//! no digest is zero, which stands for an empty subtree.

use crate::h256::H256;
use crate::merge::{
    leaf_hash, lemma_merge_input_injective, merge_input, merge_spec, root_hash, sibling_hash,
};
use crate::merkle_proof::{
    are_siblings, instruction_len, lemma_merge_up_path, lemma_run_sibling, merge_up, merge_zeros,
    path_node, proof_root, run, same_shape, step, zero_count, Machine, ProofNode, OP_JOIN,
    OP_LEAF, OP_SIBLING, OP_ZEROS,
};
use crate::traits::Hasher;
use vstd::prelude::*;

verus! {

/// Whether a node with these children is hashed: it is not where both are
/// zero.
pub open spec fn is_hashed(left: H256, right: H256) -> bool {
    !(left == H256::zero_spec() && right == H256::zero_spec())
}

/// Whether the hash function keeps two merges at one place apart: the digest
/// of neither input is zero, and where the inputs differ, the digests differ.
/// Of a merge that is not hashed nothing is asked.
pub open spec fn pair_apart<H: Hasher>(
    h: int,
    p: H256,
    l1: H256,
    r1: H256,
    l2: H256,
    r2: H256,
) -> bool {
    let x1 = merge_input(h, p, l1, r1);
    let x2 = merge_input(h, p, l2, r2);
    &&& is_hashed(l1, r1) ==> H::digest(x1) != H256::zero_spec()
    &&& is_hashed(l2, r2) ==> H::digest(x2) != H256::zero_spec()
    &&& is_hashed(l1, r1) && is_hashed(l2, r2) && x1 != x2 ==> H::digest(x1) != H::digest(x2)
}

/// Whether the hash function keeps apart the merge of `x` with the sibling
/// `sx` and the merge of `y` with the sibling `sy`, where `x` and `y` stand at
/// the same place.
pub open spec fn up_apart<H: Hasher>(x: ProofNode, y: ProofNode, sx: H256, sy: H256) -> bool {
    let h = x.height as int;
    let p = x.key.prefix(h + 1);
    if x.key.bit(h) {
        pair_apart::<H>(h, p, sx, x.value, sy, y.value)
    } else {
        pair_apart::<H>(h, p, x.value, sx, y.value, sy)
    }
}

/// Whether the hash function keeps apart each of the `count` merges with zero
/// that lead up from `x` and from `y`.
pub open spec fn zeros_apart<H: Hasher>(x: ProofNode, y: ProofNode, count: nat) -> bool
    decreases count,
{
    if count == 0 {
        true
    } else {
        &&& zeros_apart::<H>(x, y, (count - 1) as nat)
        &&& up_apart::<H>(
            merge_zeros::<H>(x, (count - 1) as nat),
            merge_zeros::<H>(y, (count - 1) as nat),
            H256::zero_spec(),
            H256::zero_spec(),
        )
    }
}

/// Whether the hash function keeps apart the merges that the first
/// instruction of `program` makes in the two states.
pub open spec fn step_apart<H: Hasher>(s1: Machine, s2: Machine, program: Seq<u8>) -> bool {
    let op = program[0];
    let n = s1.stack.len() as int;
    if op == OP_SIBLING {
        n >= 1 && s1.stack[n - 1].height < 256 ==> up_apart::<H>(
            s1.stack[n - 1],
            s2.stack[n - 1],
            H256::from_seq(program.subrange(1, 33)),
            H256::from_seq(program.subrange(1, 33)),
        )
    } else if op == OP_JOIN {
        n >= 2 && are_siblings(s1.stack[n - 2], s1.stack[n - 1]) ==> up_apart::<H>(
            s1.stack[n - 2],
            s2.stack[n - 2],
            s1.stack[n - 1].value,
            s2.stack[n - 1].value,
        )
    } else if op == OP_ZEROS {
        n >= 1 && s1.stack[n - 1].height + zero_count(program[1]) <= 256 ==> zeros_apart::<H>(
            s1.stack[n - 1],
            s2.stack[n - 1],
            zero_count(program[1]),
        )
    } else {
        true
    }
}

/// Whether the hash function keeps apart the merges that the two runs of
/// `program` make, instruction by instruction, the one from `s1` with the
/// leaves `leaves1`, the other from `s2` with the leaves `leaves2`.
pub open spec fn run_apart<H: Hasher>(
    leaves1: Seq<(H256, H256)>,
    leaves2: Seq<(H256, H256)>,
    s1: Machine,
    s2: Machine,
    program: Seq<u8>,
) -> bool
    decreases program.len(),
{
    if program.len() == 0 || program.len() < instruction_len(program[0]) {
        true
    } else {
        &&& step_apart::<H>(s1, s2, program)
        &&& match (step::<H>(leaves1, s1, program), step::<H>(leaves2, s2, program)) {
            (Some(t1), Some(t2)) => run_apart::<H>(
                leaves1,
                leaves2,
                t1,
                t2,
                program.skip(instruction_len(program[0])),
            ),
            _ => true,
        }
    }
}

/// Whether two sequences of leaves have the same keys, one by one.
pub open spec fn same_keys(a: Seq<(H256, H256)>, b: Seq<(H256, H256)>) -> bool {
    &&& a.len() == b.len()
    &&& forall|i: int| 0 <= i < a.len() ==> (#[trigger] a[i]).0 == b[i].0
}

/// Whether two stacks differ in the hash of the node at index `i`.
pub open spec fn differ_at(a: Seq<ProofNode>, b: Seq<ProofNode>, i: int) -> bool {
    0 <= i < a.len() && i < b.len() && a[i].value != b[i].value
}

/// Whether the leaves at index `i` differ in their values, and are not
/// taken up yet after `used` leaves.
pub open spec fn leaf_differs(a: Seq<(H256, H256)>, b: Seq<(H256, H256)>, used: nat, i: int) -> bool {
    used <= i < a.len() && i < b.len() && a[i].1 != b[i].1
}

/// Whether two states differ: in the hash of some node on the stack, or in
/// the value of some leaf that is not taken up yet.
pub open spec fn states_differ(
    leaves1: Seq<(H256, H256)>,
    leaves2: Seq<(H256, H256)>,
    s1: Machine,
    s2: Machine,
) -> bool {
    ||| exists|i: int| differ_at(s1.stack, s2.stack, i)
    ||| exists|i: int| leaf_differs(leaves1, leaves2, s1.used, i)
}

/// Where the hash function keeps two merges apart, different children give
/// different parents.
proof fn lemma_pair_differs<H: Hasher>(h: int, p: H256, l1: H256, r1: H256, l2: H256, r2: H256)
    requires
        pair_apart::<H>(h, p, l1, r1, l2, r2),
        0 <= h < 256,
        l1 != l2 || r1 != r2,
    ensures
        merge_spec::<H>(h, p, l1, r1) != merge_spec::<H>(h, p, l2, r2),
{
    if is_hashed(l1, r1) && is_hashed(l2, r2) {
        if merge_input(h, p, l1, r1) == merge_input(h, p, l2, r2) {
            lemma_merge_input_injective(h, p, l1, r1, h, p, l2, r2);
        }
    }
}

/// Merging keeps the place of two nodes the same, and keeps their hashes
/// apart where the nodes or the siblings differ.
proof fn lemma_up_differs<H: Hasher>(x: ProofNode, y: ProofNode, s1: H256, s2: H256)
    requires
        x.key == y.key,
        x.height == y.height,
        x.height < 256,
    ensures
        merge_up::<H>(x, s1).key == merge_up::<H>(y, s2).key,
        merge_up::<H>(x, s1).height == merge_up::<H>(y, s2).height,
        merge_up::<H>(x, s1).height == x.height + 1,
        up_apart::<H>(x, y, s1, s2) && (x.value != y.value || s1 != s2) ==> merge_up::<H>(
            x,
            s1,
        ).value != merge_up::<H>(y, s2).value,
{
    let h = x.height as int;
    let parent = x.key.prefix(h + 1);
    if up_apart::<H>(x, y, s1, s2) && (x.value != y.value || s1 != s2) {
        if x.key.bit(h) {
            lemma_pair_differs::<H>(h, parent, s1, x.value, s2, y.value);
        } else {
            lemma_pair_differs::<H>(h, parent, x.value, s1, y.value, s2);
        }
    }
}

/// Merging with zeros keeps the place of two nodes the same, and keeps their
/// hashes apart.
proof fn lemma_zeros_differ<H: Hasher>(x: ProofNode, y: ProofNode, n: nat)
    requires
        x.key == y.key,
        x.height == y.height,
        x.height + n <= 256,
    ensures
        merge_zeros::<H>(x, n).key == merge_zeros::<H>(y, n).key,
        merge_zeros::<H>(x, n).height == merge_zeros::<H>(y, n).height,
        merge_zeros::<H>(x, n).height == x.height + n,
        zeros_apart::<H>(x, y, n) && x.value != y.value ==> merge_zeros::<H>(x, n).value
            != merge_zeros::<H>(y, n).value,
    decreases n,
{
    if n > 0 {
        lemma_zeros_differ::<H>(x, y, (n - 1) as nat);
        lemma_up_differs::<H>(
            merge_zeros::<H>(x, (n - 1) as nat),
            merge_zeros::<H>(y, (n - 1) as nat),
            H256::zero_spec(),
            H256::zero_spec(),
        );
    }
}

/// One instruction treats two states of the same shape alike: it fails on
/// both or on none, and it leaves them in the same shape. Where the states
/// differed before and the hash function keeps the merges apart, they differ
/// after. A stack that held a node holds one after.
proof fn lemma_step_differs<H: Hasher>(
    leaves1: Seq<(H256, H256)>,
    leaves2: Seq<(H256, H256)>,
    s1: Machine,
    s2: Machine,
    program: Seq<u8>,
)
    requires
        same_keys(leaves1, leaves2),
        same_shape(s1.stack, s2.stack),
        s1.used == s2.used,
        program.len() > 0,
        program.len() >= instruction_len(program[0]),
    ensures
        step::<H>(leaves1, s1, program) is Some <==> step::<H>(leaves2, s2, program) is Some,
        step::<H>(leaves1, s1, program) is Some ==> ({
            let t1 = step::<H>(leaves1, s1, program).unwrap();
            let t2 = step::<H>(leaves2, s2, program).unwrap();
            &&& same_shape(t1.stack, t2.stack)
            &&& t1.used == t2.used
            &&& s1.stack.len() >= 1 ==> t1.stack.len() >= 1
            &&& step_apart::<H>(s1, s2, program) && states_differ(leaves1, leaves2, s1, s2)
                ==> states_differ(leaves1, leaves2, t1, t2)
        }),
{
    let op = program[0];
    let n = s1.stack.len() as int;
    let r1 = step::<H>(leaves1, s1, program);
    let r2 = step::<H>(leaves2, s2, program);
    if n >= 1 {
        assert(s1.stack[n - 1].key == s2.stack[n - 1].key);
    }
    if n >= 2 {
        assert(s1.stack[n - 2].key == s2.stack[n - 2].key);
    }
    if s1.used < leaves1.len() {
        assert(leaves1[s1.used as int].0 == leaves2[s1.used as int].0);
    }
    if r1 is Some {
        let t1 = r1.unwrap();
        let t2 = r2.unwrap();
        let on_stack = exists|i: int| differ_at(s1.stack, s2.stack, i);
        let at = if on_stack {
            choose|i: int| differ_at(s1.stack, s2.stack, i)
        } else {
            0
        };
        let ahead = if exists|i: int| leaf_differs(leaves1, leaves2, s1.used, i) {
            choose|i: int| leaf_differs(leaves1, leaves2, s1.used, i)
        } else {
            0
        };
        let both = step_apart::<H>(s1, s2, program) && states_differ(leaves1, leaves2, s1, s2);
        if op == OP_LEAF {
            assert(same_shape(t1.stack, t2.stack));
            if both {
                if on_stack {
                    assert(differ_at(t1.stack, t2.stack, at));
                } else if ahead == s1.used {
                    assert(differ_at(t1.stack, t2.stack, n));
                } else {
                    assert(leaf_differs(leaves1, leaves2, t1.used, ahead));
                }
            }
        } else if op == OP_SIBLING {
            let sibling = H256::from_seq(program.subrange(1, 33));
            lemma_up_differs::<H>(s1.stack[n - 1], s2.stack[n - 1], sibling, sibling);
            assert(same_shape(t1.stack, t2.stack));
            if both {
                if on_stack {
                    assert(differ_at(t1.stack, t2.stack, at));
                } else {
                    assert(leaf_differs(leaves1, leaves2, t1.used, ahead));
                }
            }
        } else if op == OP_JOIN {
            let a1 = s1.stack[n - 2];
            let a2 = s2.stack[n - 2];
            let b1 = s1.stack[n - 1];
            let b2 = s2.stack[n - 1];
            lemma_up_differs::<H>(a1, a2, b1.value, b2.value);
            assert(same_shape(t1.stack, t2.stack));
            if both {
                if on_stack {
                    let j = if at >= n - 2 {
                        n - 2
                    } else {
                        at
                    };
                    assert(differ_at(t1.stack, t2.stack, j));
                } else {
                    assert(leaf_differs(leaves1, leaves2, t1.used, ahead));
                }
            }
        } else if op == OP_ZEROS {
            lemma_zeros_differ::<H>(s1.stack[n - 1], s2.stack[n - 1], zero_count(program[1]));
            assert(same_shape(t1.stack, t2.stack));
            if both {
                if on_stack {
                    assert(differ_at(t1.stack, t2.stack, at));
                } else {
                    assert(leaf_differs(leaves1, leaves2, t1.used, ahead));
                }
            }
        }
    }
}

/// A program treats two states of the same shape alike: it fails on both or
/// on none, and it leaves them in the same shape. Where the states differed
/// before and the hash function keeps the merges of the two runs apart, they
/// differ after. A stack that held a node holds one after.
proof fn lemma_run_differs<H: Hasher>(
    leaves1: Seq<(H256, H256)>,
    leaves2: Seq<(H256, H256)>,
    s1: Machine,
    s2: Machine,
    program: Seq<u8>,
)
    requires
        same_keys(leaves1, leaves2),
        same_shape(s1.stack, s2.stack),
        s1.used == s2.used,
    ensures
        run::<H>(leaves1, s1, program) is Some <==> run::<H>(leaves2, s2, program) is Some,
        run::<H>(leaves1, s1, program) is Some ==> ({
            let f1 = run::<H>(leaves1, s1, program).unwrap();
            let f2 = run::<H>(leaves2, s2, program).unwrap();
            &&& same_shape(f1.stack, f2.stack)
            &&& f1.used == f2.used
            &&& s1.stack.len() >= 1 ==> f1.stack.len() >= 1
            &&& run_apart::<H>(leaves1, leaves2, s1, s2, program) && states_differ(
                leaves1,
                leaves2,
                s1,
                s2,
            ) ==> states_differ(leaves1, leaves2, f1, f2)
        }),
    decreases program.len(),
{
    if program.len() > 0 && program.len() >= instruction_len(program[0]) {
        lemma_step_differs::<H>(leaves1, leaves2, s1, s2, program);
        if step::<H>(leaves1, s1, program) is Some {
            lemma_run_differs::<H>(
                leaves1,
                leaves2,
                step::<H>(leaves1, s1, program).unwrap(),
                step::<H>(leaves2, s2, program).unwrap(),
                program.skip(instruction_len(program[0])),
            );
        }
    }
}

/// Two runs that end in states of the same shape which differ lead to
/// different roots, or both to none.
proof fn lemma_roots_differ(
    leaves1: Seq<(H256, H256)>,
    leaves2: Seq<(H256, H256)>,
    f1: Machine,
    f2: Machine,
)
    requires
        same_keys(leaves1, leaves2),
        same_shape(f1.stack, f2.stack),
        f1.used == f2.used,
        states_differ(leaves1, leaves2, f1, f2),
        f1.stack.len() == 1 && f1.stack[0].height == 256 && f1.used == leaves1.len(),
    ensures
        f1.stack[0].value != f2.stack[0].value,
        f2.stack.len() == 1 && f2.stack[0].height == 256 && f2.used == leaves2.len(),
{
    assert(f1.stack[0].height == f2.stack[0].height);
    if exists|i: int| differ_at(f1.stack, f2.stack, i) {
        let i = choose|i: int| differ_at(f1.stack, f2.stack, i);
        assert(i == 0);
    } else {
        let i = choose|i: int| leaf_differs(leaves1, leaves2, f1.used, i);
        assert(leaf_differs(leaves1, leaves2, f1.used, i));
    }
}

/// Running two programs one after the other is running them as one, where
/// the first is made of whole instructions that can be carried out.
pub proof fn lemma_run_concat<H: Hasher>(
    leaves: Seq<(H256, H256)>,
    s: Machine,
    first: Seq<u8>,
    second: Seq<u8>,
)
    requires
        run::<H>(leaves, s, first) is Some,
    ensures
        run::<H>(leaves, s, first + second) == run::<H>(
            leaves,
            run::<H>(leaves, s, first).unwrap(),
            second,
        ),
    decreases first.len(),
{
    let whole = first + second;
    if first.len() == 0 {
        assert(whole =~= second);
    } else {
        let k = instruction_len(first[0]);
        assert(whole[0] == first[0]);
        if first[0] == OP_SIBLING {
            assert(whole.subrange(1, 33) =~= first.subrange(1, 33));
        }
        if first[0] == OP_ZEROS {
            assert(whole[1] == first[1]);
        }
        assert(step::<H>(leaves, s, whole) == step::<H>(leaves, s, first));
        assert(whole.skip(k) =~= first.skip(k) + second);
        lemma_run_concat::<H>(leaves, step::<H>(leaves, s, first).unwrap(), first.skip(k), second);
    }
}

/// Whether the hash function keeps apart what the proof with the sibling `s`
/// and the proof with the sibling `t` in its place hash: the merge with the
/// sibling, and every merge that `after` makes in the two runs from there.
pub open spec fn sibling_change_apart<H: Hasher>(
    leaves: Seq<(H256, H256)>,
    before: Seq<u8>,
    s: H256,
    t: H256,
    after: Seq<u8>,
) -> bool {
    match run::<H>(leaves, Machine { stack: Seq::empty(), used: 0 }, before) {
        Some(mid) => mid.stack.len() >= 1 && mid.stack.last().height < 256 ==> {
            let top = mid.stack.last();
            &&& up_apart::<H>(top, top, s, t)
            &&& run_apart::<H>(
                leaves,
                leaves,
                Machine { stack: mid.stack.drop_last().push(merge_up::<H>(top, s)), used: mid.used },
                Machine { stack: mid.stack.drop_last().push(merge_up::<H>(top, t)), used: mid.used },
                after,
            )
        },
        None => true,
    }
}

/// A proof in which one sibling hash was changed is as well formed as it was,
/// and it leads to another root, where the hash function keeps apart what the
/// two proofs hash from the changed sibling on. So where the proof led to the
/// expected root, the changed proof is refused as a root mismatch.
///
/// The proof is `before`, an `OP_SIBLING` instruction with the hash `s`, and
/// `after`; `before` is made of whole instructions that can be carried out.
/// The changed proof has the hash `t` in place of `s`.
pub proof fn lemma_tampered_sibling<H: Hasher>(
    leaves: Seq<(H256, H256)>,
    before: Seq<u8>,
    s: H256,
    t: H256,
    after: Seq<u8>,
)
    requires
        s != t,
        run::<H>(leaves, Machine { stack: Seq::empty(), used: 0 }, before) is Some,
        sibling_change_apart::<H>(leaves, before, s, t, after),
    ensures
        ({
            let good = proof_root::<H>(leaves, before + (seq![OP_SIBLING] + s@) + after);
            let bad = proof_root::<H>(leaves, before + (seq![OP_SIBLING] + t@) + after);
            &&& good is Some <==> bad is Some
            &&& good is Some ==> good != bad
        }),
{
    let start = Machine { stack: Seq::<ProofNode>::empty(), used: 0 };
    let mid = run::<H>(leaves, start, before).unwrap();
    let tail_s = seq![OP_SIBLING] + s@ + after;
    let tail_t = seq![OP_SIBLING] + t@ + after;
    assert(before + (seq![OP_SIBLING] + s@) + after =~= before + tail_s);
    assert(before + (seq![OP_SIBLING] + t@) + after =~= before + tail_t);
    lemma_run_concat::<H>(leaves, start, before, tail_s);
    lemma_run_concat::<H>(leaves, start, before, tail_t);
    let n = mid.stack.len() as int;
    assert(tail_s[0] == OP_SIBLING && tail_t[0] == OP_SIBLING);
    assert(tail_s.len() >= 33 && tail_t.len() >= 33) by {
        broadcast use vstd::array::group_array_axioms;

    }
    if n >= 1 && mid.stack[n - 1].height < 256 {
        let below = mid.stack.drop_last();
        let top = mid.stack[n - 1];
        assert(mid.stack =~= below.push(top));
        lemma_run_sibling::<H>(leaves, below, mid.used, top, s, after);
        lemma_run_sibling::<H>(leaves, below, mid.used, top, t, after);
        lemma_up_differs::<H>(top, top, s, t);
        let m1 = Machine { stack: below.push(merge_up::<H>(top, s)), used: mid.used };
        let m2 = Machine { stack: below.push(merge_up::<H>(top, t)), used: mid.used };
        assert(same_shape(m1.stack, m2.stack));
        assert(differ_at(m1.stack, m2.stack, n - 1));
        lemma_run_differs::<H>(leaves, leaves, m1, m2, after);
        if run::<H>(leaves, m1, after) is Some {
            let f1 = run::<H>(leaves, m1, after).unwrap();
            let f2 = run::<H>(leaves, m2, after).unwrap();
            if f1.stack.len() == 1 && f1.stack[0].height == 256 && f1.used == leaves.len() {
                lemma_roots_differ(leaves, leaves, f1, f2);
            } else {
                assert(f1.stack.len() == 1 ==> f1.stack[0].height == f2.stack[0].height);
            }
        }
    }
}

/// A proof leads to another root for claims in which a value was changed,
/// where the hash function keeps apart what the two runs hash; and it is as
/// well formed for the changed claims as it was. So a proof that verifies for
/// a value does not verify for another value under the same key.
pub proof fn lemma_changed_value<H: Hasher>(
    leaves1: Seq<(H256, H256)>,
    leaves2: Seq<(H256, H256)>,
    proof: Seq<u8>,
)
    requires
        same_keys(leaves1, leaves2),
        leaves1 != leaves2,
        run_apart::<H>(
            leaves1,
            leaves2,
            Machine { stack: Seq::empty(), used: 0 },
            Machine { stack: Seq::empty(), used: 0 },
            proof,
        ),
    ensures
        proof_root::<H>(leaves1, proof) is Some <==> proof_root::<H>(leaves2, proof) is Some,
        proof_root::<H>(leaves1, proof) is Some ==> proof_root::<H>(leaves1, proof) != proof_root::<
            H,
        >(leaves2, proof),
{
    let start = Machine { stack: Seq::<ProofNode>::empty(), used: 0 };
    if forall|i: int| 0 <= i < leaves1.len() ==> leaves1[i].1 == leaves2[i].1 {
        assert(leaves1 =~= leaves2);
    }
    let i = choose|i: int| 0 <= i < leaves1.len() && leaves1[i].1 != leaves2[i].1;
    assert(leaf_differs(leaves1, leaves2, 0, i));
    lemma_run_differs::<H>(leaves1, leaves2, start, start, proof);
    if run::<H>(leaves1, start, proof) is Some {
        let f1 = run::<H>(leaves1, start, proof).unwrap();
        let f2 = run::<H>(leaves2, start, proof).unwrap();
        if f1.stack.len() == 1 && f1.stack[0].height == 256 && f1.used == leaves1.len() {
            lemma_roots_differ(leaves1, leaves2, f1, f2);
        } else {
            assert(f1.stack.len() == 1 ==> f1.stack[0].height == f2.stack[0].height);
        }
    }
}

/// Whether the hash function keeps apart the merges on the path of `key` in
/// two trees, at each height from the leaf to the root.
pub open spec fn path_apart<H: Hasher>(m1: Map<H256, H256>, m2: Map<H256, H256>, key: H256) -> bool {
    forall|h: nat|
        h < 256 ==> #[trigger] up_apart::<H>(
            path_node::<H>(m1, key, h),
            path_node::<H>(m2, key, h),
            sibling_hash::<H>(m1, key, h),
            sibling_hash::<H>(m2, key, h),
        )
}

/// Two trees that differ in the leaf under `key` differ in every node on the
/// path of that key up to height `h`, where the hash function keeps the
/// merges on the path apart.
proof fn lemma_path_differs<H: Hasher>(m1: Map<H256, H256>, m2: Map<H256, H256>, key: H256, h: nat)
    requires
        h <= 256,
        leaf_hash(m1, key) != leaf_hash(m2, key),
        path_apart::<H>(m1, m2, key),
    ensures
        path_node::<H>(m1, key, h).value != path_node::<H>(m2, key, h).value,
    decreases h,
{
    if h == 0 {
        assert(key.prefix(0) == key) by {
            broadcast use H256::lemma_prefix_bit;

            H256::lemma_bits_ext(key.prefix(0), key);
        }
    } else {
        let b = (h - 1) as nat;
        lemma_path_differs::<H>(m1, m2, key, b);
        lemma_merge_up_path::<H>(m1, key, b);
        lemma_merge_up_path::<H>(m2, key, b);
        assert(up_apart::<H>(
            path_node::<H>(m1, key, b),
            path_node::<H>(m2, key, b),
            sibling_hash::<H>(m1, key, b),
            sibling_hash::<H>(m2, key, b),
        ));
        lemma_up_differs::<H>(
            path_node::<H>(m1, key, b),
            path_node::<H>(m2, key, b),
            sibling_hash::<H>(m1, key, b),
            sibling_hash::<H>(m2, key, b),
        );
    }
}

/// Two trees that differ in the leaf under `key` have different roots, where
/// the hash function keeps the merges on the path of that key apart. So a
/// write that changes a leaf changes the root, and a proof that leads to the
/// root of the one tree is a root mismatch for the other.
pub proof fn lemma_changed_leaf_changes_root<H: Hasher>(
    m1: Map<H256, H256>,
    m2: Map<H256, H256>,
    key: H256,
)
    requires
        leaf_hash(m1, key) != leaf_hash(m2, key),
        path_apart::<H>(m1, m2, key),
    ensures
        root_hash::<H>(m1) != root_hash::<H>(m2),
{
    broadcast use H256::lemma_prefix_bit, H256::lemma_zero_bit;

    H256::lemma_bits_ext(key.prefix(256), H256::zero_spec());
    lemma_path_differs::<H>(m1, m2, key, 256);
}

} // verus!

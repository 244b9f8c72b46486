//! Compact proofs: a proof is a program for a stack machine that rebuilds the
//! root from the claimed leaves and the sibling hashes that the proof holds.
//!
//! The program is a flat sequence of instructions, one byte each, followed by
//! the operand if the instruction has one:
//!
//! - `OP_LEAF`: push the next claimed leaf, at height 0;
//! - `OP_SIBLING` and 32 bytes: merge the top of the stack with the sibling
//!   hash given, which moves it one level up;
//! - `OP_JOIN`: merge the two topmost entries, which must be the two children
//!   of one node;
//! - `OP_ZEROS` and one byte `n`: merge the top of the stack `n` times with a
//!   zero sibling (256 times for `n == 0`).
//!
//! A proof is well formed for a sequence of leaves if the program runs through,
//! uses every leaf, and leaves one entry of height 256 on the stack. The value
//! of that entry is the root that the proof leads to. For no leaves the empty
//! program is well formed: it leaves the stack empty and leads to the zero
//! root, the root of the tree without leaves. Whether a proof is well
//! formed depends on the keys of the leaves alone, not on any hash: it is
//! found out before anything is hashed.

use crate::h256::H256;
use crate::merge::{
    leaf_hash, lemma_path_keys, lemma_path_step, lemma_prefix_of_prefix, merge, merge_spec,
    node_hash, root_hash, sibling_hash,
};
use crate::traits::Hasher;
use vstd::prelude::*;
use vstd::slice::slice_subrange;

verus! {

/// Instruction: push the next claimed leaf.
pub const OP_LEAF: u8 = 0x4C;

/// Instruction: merge the top of the stack with the sibling hash that follows.
pub const OP_SIBLING: u8 = 0x50;

/// Instruction: merge the two topmost entries of the stack.
pub const OP_JOIN: u8 = 0x48;

/// Instruction: merge the top of the stack with as many zero siblings as the
/// byte that follows says.
pub const OP_ZEROS: u8 = 0x4F;

/// An entry of the stack: the hash `value` of the node at `height` whose
/// leftmost leaf is `key`.
#[derive(Debug, Clone, Copy, PartialEq, Eq)]
pub struct ProofNode {
    pub key: H256,
    pub value: H256,
    pub height: u16,
}

/// The state of the machine: the stack, and how many of the leaves were
/// pushed.
pub struct Machine {
    pub stack: Seq<ProofNode>,
    pub used: nat,
}

/// The entry for a claimed leaf.
pub open spec fn leaf_node(leaf: (H256, H256)) -> ProofNode {
    ProofNode { key: leaf.0, value: leaf.1, height: 0 }
}

/// The parent of `n`, given the hash of the sibling of `n`.
pub open spec fn merge_up<H: Hasher>(n: ProofNode, sibling: H256) -> ProofNode {
    let h = n.height as int;
    let parent = n.key.prefix(h + 1);
    ProofNode {
        key: parent,
        value: if n.key.bit(h) {
            merge_spec::<H>(h, parent, sibling, n.value)
        } else {
            merge_spec::<H>(h, parent, n.value, sibling)
        },
        height: (h + 1) as u16,
    }
}

/// The ancestor of `n` that is `count` levels up, where every sibling on the
/// way is zero.
pub open spec fn merge_zeros<H: Hasher>(n: ProofNode, count: nat) -> ProofNode
    decreases count,
{
    if count == 0 {
        n
    } else {
        merge_up::<H>(merge_zeros::<H>(n, (count - 1) as nat), H256::zero_spec())
    }
}

/// Whether `a` and `b` are the two children of one node.
pub open spec fn are_siblings(a: ProofNode, b: ProofNode) -> bool {
    &&& a.height == b.height
    &&& a.height < 256
    &&& a.key.prefix(a.height + 1) == b.key.prefix(a.height + 1)
    &&& a.key.bit(a.height as int) != b.key.bit(a.height as int)
}

/// How many zero siblings the operand of `OP_ZEROS` stands for.
pub open spec fn zero_count(operand: u8) -> nat {
    if operand == 0 {
        256
    } else {
        operand as nat
    }
}

/// The length of an instruction with its operand.
pub open spec fn instruction_len(op: u8) -> int {
    if op == OP_SIBLING {
        33
    } else if op == OP_ZEROS {
        2
    } else {
        1
    }
}

/// The state after the first instruction of `program`, or `None` if the
/// instruction is unknown or cannot be carried out. The program holds at
/// least that instruction with its operand.
pub open spec fn step<H: Hasher>(leaves: Seq<(H256, H256)>, m: Machine, program: Seq<u8>) -> Option<
    Machine,
> {
    let op = program[0];
    let n = m.stack.len() as int;
    if op == OP_LEAF {
        if m.used < leaves.len() {
            Some(Machine { stack: m.stack.push(leaf_node(leaves[m.used as int])), used: m.used + 1 })
        } else {
            None
        }
    } else if op == OP_SIBLING {
        if n >= 1 && m.stack[n - 1].height < 256 {
            let sibling = H256::from_seq(program.subrange(1, 33));
            Some(
                Machine {
                    stack: m.stack.drop_last().push(merge_up::<H>(m.stack[n - 1], sibling)),
                    used: m.used,
                },
            )
        } else {
            None
        }
    } else if op == OP_JOIN {
        if n >= 2 && are_siblings(m.stack[n - 2], m.stack[n - 1]) {
            Some(
                Machine {
                    stack: m.stack.drop_last().drop_last().push(
                        merge_up::<H>(m.stack[n - 2], m.stack[n - 1].value),
                    ),
                    used: m.used,
                },
            )
        } else {
            None
        }
    } else if op == OP_ZEROS {
        if n >= 1 && m.stack[n - 1].height + zero_count(program[1]) <= 256 {
            Some(
                Machine {
                    stack: m.stack.drop_last().push(
                        merge_zeros::<H>(m.stack[n - 1], zero_count(program[1])),
                    ),
                    used: m.used,
                },
            )
        } else {
            None
        }
    } else {
        None
    }
}

/// The state after the whole program, or `None` if an instruction is cut
/// short, unknown, or cannot be carried out.
pub open spec fn run<H: Hasher>(leaves: Seq<(H256, H256)>, m: Machine, program: Seq<u8>) -> Option<
    Machine,
>
    decreases program.len(),
{
    if program.len() == 0 {
        Some(m)
    } else if program.len() < instruction_len(program[0]) {
        None
    } else {
        match step::<H>(leaves, m, program) {
            Some(next) => run::<H>(leaves, next, program.skip(instruction_len(program[0]))),
            None => None,
        }
    }
}

/// The root that a proof leads to from the claimed leaves, or `None` if the
/// proof is not well formed for them. Where there are no leaves and the stack
/// is empty at the end, the root is zero.
pub open spec fn proof_root<H: Hasher>(leaves: Seq<(H256, H256)>, proof: Seq<u8>) -> Option<H256> {
    match run::<H>(leaves, Machine { stack: Seq::empty(), used: 0 }, proof) {
        Some(m) => if m.stack.len() == 1 && m.stack[0].height == 256 && m.used == leaves.len() {
            Some(m.stack[0].value)
        } else if m.stack.len() == 0 && leaves.len() == 0 {
            Some(H256::zero_spec())
        } else {
            None
        },
        None => None,
    }
}

/// The parent of `n`, given the hash of the sibling of `n`.
pub fn merge_node<H: Hasher>(n: &ProofNode, sibling: &H256) -> (r: ProofNode)
    requires
        n.height < 256,
    ensures
        r == merge_up::<H>(*n, *sibling),
{
    let h: u8 = n.height as u8;
    let parent = n.key.parent_path(h);
    let value = if n.key.get_bit(h) {
        merge::<H>(h, &parent, sibling, &n.value)
    } else {
        merge::<H>(h, &parent, &n.value, sibling)
    };
    ProofNode { key: parent, value, height: n.height + 1 }
}

/// Whether `a` and `b` are the two children of one node.
pub fn check_siblings(a: &ProofNode, b: &ProofNode) -> (r: bool)
    ensures
        r == are_siblings(*a, *b),
{
    if a.height != b.height || a.height >= 256 {
        return false;
    }
    let h: u8 = a.height as u8;
    let pa = a.key.parent_path(h);
    let pb = b.key.parent_path(h);
    pa.is_same(&pb) && a.key.get_bit(h) != b.key.get_bit(h)
}

/// The place of the node `count` levels above `n`, with no hash.
pub open spec fn raised(n: ProofNode, count: nat) -> ProofNode {
    ProofNode {
        key: n.key.prefix(n.height + count),
        value: H256::zero_spec(),
        height: (n.height + count) as u16,
    }
}

/// What the first instruction of `program` does to the places of the nodes
/// on the stack: as `step`, without any hash.
pub open spec fn dry_step(leaves: Seq<(H256, H256)>, m: Machine, program: Seq<u8>) -> Option<
    Machine,
> {
    let op = program[0];
    let n = m.stack.len() as int;
    if op == OP_LEAF {
        if m.used < leaves.len() {
            Some(Machine { stack: m.stack.push(leaf_node(leaves[m.used as int])), used: m.used + 1 })
        } else {
            None
        }
    } else if op == OP_SIBLING {
        if n >= 1 && m.stack[n - 1].height < 256 {
            Some(Machine { stack: m.stack.drop_last().push(raised(m.stack[n - 1], 1)), used: m.used })
        } else {
            None
        }
    } else if op == OP_JOIN {
        if n >= 2 && are_siblings(m.stack[n - 2], m.stack[n - 1]) {
            Some(
                Machine {
                    stack: m.stack.drop_last().drop_last().push(raised(m.stack[n - 2], 1)),
                    used: m.used,
                },
            )
        } else {
            None
        }
    } else if op == OP_ZEROS {
        if n >= 1 && m.stack[n - 1].height + zero_count(program[1]) <= 256 {
            Some(
                Machine {
                    stack: m.stack.drop_last().push(
                        raised(m.stack[n - 1], zero_count(program[1])),
                    ),
                    used: m.used,
                },
            )
        } else {
            None
        }
    } else {
        None
    }
}

/// What the whole program does to the places of the nodes on the stack: as
/// `run`, without any hash.
pub open spec fn dry_run(leaves: Seq<(H256, H256)>, m: Machine, program: Seq<u8>) -> Option<
    Machine,
>
    decreases program.len(),
{
    if program.len() == 0 {
        Some(m)
    } else if program.len() < instruction_len(program[0]) {
        None
    } else {
        match dry_step(leaves, m, program) {
            Some(next) => dry_run(leaves, next, program.skip(instruction_len(program[0]))),
            None => None,
        }
    }
}

/// Whether a proof is well formed for the claimed leaves: the program runs
/// through, uses every leaf, and leaves one entry of height 256 on the stack,
/// or, where there are no leaves, none.
pub open spec fn is_well_formed(leaves: Seq<(H256, H256)>, proof: Seq<u8>) -> bool {
    match dry_run(leaves, Machine { stack: Seq::empty(), used: 0 }, proof) {
        Some(m) => (m.stack.len() == 1 && m.stack[0].height == 256 && m.used == leaves.len())
            || (m.stack.len() == 0 && leaves.len() == 0),
        None => false,
    }
}

/// Whether two stacks hold nodes at the same places: the same keys and
/// heights, whatever the hashes.
pub open spec fn same_shape(a: Seq<ProofNode>, b: Seq<ProofNode>) -> bool {
    &&& a.len() == b.len()
    &&& forall|i: int|
        0 <= i < a.len() ==> (#[trigger] a[i]).key == b[i].key && a[i].height == b[i].height
}

/// Merging with zeros leads to the place `count` levels up.
pub proof fn lemma_merge_zeros_place<H: Hasher>(n: ProofNode, count: nat)
    requires
        count >= 1,
        n.height + count <= 256,
    ensures
        merge_zeros::<H>(n, count).key == raised(n, count).key,
        merge_zeros::<H>(n, count).height == raised(n, count).height,
    decreases count,
{
    let before = merge_zeros::<H>(n, (count - 1) as nat);
    assert(merge_zeros::<H>(n, count) == merge_up::<H>(before, H256::zero_spec()));
    if count > 1 {
        lemma_merge_zeros_place::<H>(n, (count - 1) as nat);
        lemma_prefix_of_prefix(n.key, n.height + count - 1, n.height + count);
    } else {
        assert(before == n);
    }
}

/// One instruction does to the places of the nodes what it does without any
/// hash.
proof fn lemma_dry_step<H: Hasher>(
    leaves: Seq<(H256, H256)>,
    s: Machine,
    d: Machine,
    program: Seq<u8>,
)
    requires
        same_shape(s.stack, d.stack),
        s.used == d.used,
        program.len() > 0,
        program.len() >= instruction_len(program[0]),
    ensures
        step::<H>(leaves, s, program) is Some <==> dry_step(leaves, d, program) is Some,
        step::<H>(leaves, s, program) is Some ==> same_shape(
            step::<H>(leaves, s, program).unwrap().stack,
            dry_step(leaves, d, program).unwrap().stack,
        ) && step::<H>(leaves, s, program).unwrap().used == dry_step(
            leaves,
            d,
            program,
        ).unwrap().used,
{
    let n = s.stack.len() as int;
    if n >= 1 {
        assert(s.stack[n - 1].key == d.stack[n - 1].key);
        if s.stack[n - 1].height + zero_count(program[1]) <= 256 {
            lemma_merge_zeros_place::<H>(s.stack[n - 1], zero_count(program[1]));
        }
    }
    if n >= 2 {
        assert(s.stack[n - 2].key == d.stack[n - 2].key);
    }
}

/// A program does to the places of the nodes what it does without any hash.
proof fn lemma_dry_run<H: Hasher>(
    leaves: Seq<(H256, H256)>,
    s: Machine,
    d: Machine,
    program: Seq<u8>,
)
    requires
        same_shape(s.stack, d.stack),
        s.used == d.used,
    ensures
        run::<H>(leaves, s, program) is Some <==> dry_run(leaves, d, program) is Some,
        run::<H>(leaves, s, program) is Some ==> same_shape(
            run::<H>(leaves, s, program).unwrap().stack,
            dry_run(leaves, d, program).unwrap().stack,
        ) && run::<H>(leaves, s, program).unwrap().used == dry_run(leaves, d, program).unwrap().used,
    decreases program.len(),
{
    if program.len() > 0 && program.len() >= instruction_len(program[0]) {
        lemma_dry_step::<H>(leaves, s, d, program);
        if step::<H>(leaves, s, program) is Some {
            lemma_dry_run::<H>(
                leaves,
                step::<H>(leaves, s, program).unwrap(),
                dry_step(leaves, d, program).unwrap(),
                program.skip(instruction_len(program[0])),
            );
        }
    }
}

/// A proof leads to a root exactly where it is well formed, whatever the hash
/// function.
pub proof fn lemma_well_formed<H: Hasher>(leaves: Seq<(H256, H256)>, proof: Seq<u8>)
    ensures
        proof_root::<H>(leaves, proof) is Some <==> is_well_formed(leaves, proof),
{
    let start = Machine { stack: Seq::<ProofNode>::empty(), used: 0 };
    lemma_dry_run::<H>(leaves, start, start, proof);
    if run::<H>(leaves, start, proof) is Some {
        let f = run::<H>(leaves, start, proof).unwrap();
        let g = dry_run(leaves, start, proof).unwrap();
        if f.stack.len() == 1 {
            assert(f.stack[0].height == g.stack[0].height);
        }
    }
}

/// The place of the node `count` levels above `n`, with no hash.
fn raise(n: &ProofNode, count: u16) -> (r: ProofNode)
    requires
        count >= 1,
        n.height + count <= 256,
    ensures
        r == raised(*n, count as nat),
{
    let top: u8 = (n.height + count - 1) as u8;
    ProofNode { key: n.key.parent_path(top), value: H256::zero(), height: n.height + count }
}

/// Whether `proof` is well formed for the claimed leaves. Nothing is hashed
/// to find out.
pub fn check_structure(leaves: &Vec<(H256, H256)>, proof: &[u8]) -> (r: bool)
    ensures
        r == is_well_formed(leaves@, proof@),
{
    let ghost start = Machine { stack: Seq::empty(), used: 0 };
    let mut stack: Vec<ProofNode> = Vec::new();
    let mut used: usize = 0;
    let mut pos: usize = 0;
    proof {
        assert(proof@.skip(0) =~= proof@);
    }
    while pos < proof.len()
        invariant
            pos <= proof.len(),
            used <= leaves.len(),
            start == (Machine { stack: Seq::empty(), used: 0 }),
            dry_run(leaves@, start, proof@) == dry_run(
                leaves@,
                Machine { stack: stack@, used: used as nat },
                proof@.skip(pos as int),
            ),
        decreases proof.len() - pos,
    {
        let ghost rest = proof@.skip(pos as int);
        let op = proof[pos];
        assert(rest[0] == op);
        if op == OP_LEAF {
            if used >= leaves.len() {
                return false;
            }
            let leaf = leaves[used];
            stack.push(ProofNode { key: leaf.0, value: leaf.1, height: 0 });
            used += 1;
            proof {
                assert(rest.skip(1) =~= proof@.skip(pos + 1));
            }
            pos += 1;
        } else if op == OP_SIBLING {
            if proof.len() - pos < 33 || stack.len() < 1 {
                return false;
            }
            let top = stack[stack.len() - 1];
            if top.height >= 256 {
                return false;
            }
            let up = raise(&top, 1);
            stack.pop();
            stack.push(up);
            proof {
                assert(rest.skip(33) =~= proof@.skip(pos + 33));
            }
            pos += 33;
        } else if op == OP_JOIN {
            if stack.len() < 2 {
                return false;
            }
            let a = stack[stack.len() - 2];
            let b = stack[stack.len() - 1];
            if !check_siblings(&a, &b) {
                return false;
            }
            let up = raise(&a, 1);
            stack.pop();
            stack.pop();
            stack.push(up);
            proof {
                assert(rest.skip(1) =~= proof@.skip(pos + 1));
            }
            pos += 1;
        } else if op == OP_ZEROS {
            if proof.len() - pos < 2 || stack.len() < 1 {
                return false;
            }
            let operand = proof[pos + 1];
            assert(rest[1] == operand);
            let count: u16 = if operand == 0 {
                256
            } else {
                operand as u16
            };
            let top = stack[stack.len() - 1];
            if top.height > 256 || count > 256 - top.height {
                return false;
            }
            let up = raise(&top, count);
            stack.pop();
            stack.push(up);
            proof {
                assert(rest.skip(2) =~= proof@.skip(pos + 2));
            }
            pos += 2;
        } else {
            return false;
        }
    }
    (stack.len() == 1 && stack[0].height == 256 && used == leaves.len()) || (stack.len() == 0
        && leaves.len() == 0)
}

/// Runs `proof` on the claimed leaves and returns the root that it leads to,
/// or `None` if the proof is not well formed for these leaves, which is found
/// out before anything is hashed.
pub fn compute_root<H: Hasher>(leaves: &Vec<(H256, H256)>, proof: &[u8]) -> (r: Option<H256>)
    ensures
        r == proof_root::<H>(leaves@, proof@),
{
    proof {
        lemma_well_formed::<H>(leaves@, proof@);
    }
    if !check_structure(leaves, proof) {
        return None;
    }
    let ghost start = Machine { stack: Seq::empty(), used: 0 };
    let mut stack: Vec<ProofNode> = Vec::new();
    let mut used: usize = 0;
    let mut pos: usize = 0;
    proof {
        assert(proof@.skip(0) =~= proof@);
    }
    while pos < proof.len()
        invariant
            pos <= proof.len(),
            used <= leaves.len(),
            start == (Machine { stack: Seq::empty(), used: 0 }),
            run::<H>(leaves@, start, proof@) == run::<H>(
                leaves@,
                Machine { stack: stack@, used: used as nat },
                proof@.skip(pos as int),
            ),
        decreases proof.len() - pos,
    {
        let ghost rest = proof@.skip(pos as int);
        let ghost now = Machine { stack: stack@, used: used as nat };
        let op = proof[pos];
        assert(rest[0] == op);
        if op == OP_LEAF {
            if used >= leaves.len() {
                return None;
            }
            let leaf = leaves[used];
            stack.push(ProofNode { key: leaf.0, value: leaf.1, height: 0 });
            used += 1;
            proof {
                assert(rest.skip(1) =~= proof@.skip(pos + 1));
            }
            pos += 1;
        } else if op == OP_SIBLING {
            if proof.len() - pos < 33 || stack.len() < 1 {
                return None;
            }
            let top = stack[stack.len() - 1];
            if top.height >= 256 {
                return None;
            }
            let bytes = slice_subrange(proof, pos + 1, pos + 33);
            proof {
                assert(bytes@ =~= rest.subrange(1, 33));
            }
            let sibling = match H256::from_slice(bytes) {
                Ok(h) => h,
                Err(_) => {
                    return None;
                },
            };
            let merged = merge_node::<H>(&top, &sibling);
            stack.pop();
            stack.push(merged);
            proof {
                assert(rest.skip(33) =~= proof@.skip(pos + 33));
            }
            pos += 33;
        } else if op == OP_JOIN {
            if stack.len() < 2 {
                return None;
            }
            let a = stack[stack.len() - 2];
            let b = stack[stack.len() - 1];
            if !check_siblings(&a, &b) {
                return None;
            }
            let merged = merge_node::<H>(&a, &b.value);
            stack.pop();
            stack.pop();
            stack.push(merged);
            proof {
                assert(rest.skip(1) =~= proof@.skip(pos + 1));
            }
            pos += 1;
        } else if op == OP_ZEROS {
            if proof.len() - pos < 2 || stack.len() < 1 {
                return None;
            }
            let operand = proof[pos + 1];
            assert(rest[1] == operand);
            let count: u16 = if operand == 0 {
                256
            } else {
                operand as u16
            };
            let top = stack[stack.len() - 1];
            if top.height > 256 || count > 256 - top.height {
                return None;
            }
            let mut node = top;
            let mut done: u16 = 0;
            while done < count
                invariant
                    done <= count,
                    top.height + count <= 256,
                    node == merge_zeros::<H>(top, done as nat),
                    node.height == top.height + done,
                decreases count - done,
            {
                let zero = H256::zero();
                node = merge_node::<H>(&node, &zero);
                done += 1;
            }
            stack.pop();
            stack.push(node);
            proof {
                assert(rest.skip(2) =~= proof@.skip(pos + 2));
            }
            pos += 2;
        } else {
            return None;
        }
    }
    if stack.len() == 1 && stack[0].height == 256 && used == leaves.len() {
        Some(stack[0].value)
    } else if stack.len() == 0 && leaves.len() == 0 {
        Some(H256::zero())
    } else {
        None
    }
}

/// The entry of the stack for the node at height `h` on the path of `key`,
/// in the tree of the leaf hashes `m`.
pub open spec fn path_node<H: Hasher>(m: Map<H256, H256>, key: H256, h: nat) -> ProofNode {
    ProofNode {
        key: key.prefix(h as int),
        value: node_hash::<H>(m, h, key.prefix(h as int)),
        height: h as u16,
    }
}

/// The instruction for `pending` zero siblings in a row: nothing for none.
pub open spec fn zeros_instruction(pending: nat) -> Seq<u8> {
    if pending == 0 {
        Seq::empty()
    } else {
        seq![OP_ZEROS, (pending % 256) as u8]
    }
}

/// The program that leads from the node at height `from` on the path of
/// `key` to the root, after `pending` zero siblings for which no instruction
/// was written yet: for each sibling that is not zero `OP_SIBLING` with its
/// hash, for each run of zero siblings one `OP_ZEROS` with the length of the
/// run.
pub open spec fn path_program<H: Hasher>(
    m: Map<H256, H256>,
    key: H256,
    from: nat,
    pending: nat,
) -> Seq<u8>
    decreases 256 - from,
{
    if from >= 256 {
        zeros_instruction(pending)
    } else {
        let sibling = sibling_hash::<H>(m, key, from);
        if sibling == H256::zero_spec() {
            path_program::<H>(m, key, from + 1, pending + 1)
        } else {
            zeros_instruction(pending) + (seq![OP_SIBLING] + sibling@) + path_program::<H>(
                m,
                key,
                from + 1,
                0,
            )
        }
    }
}

/// The compact proof for one key in the tree of the leaf hashes `m`:
/// `OP_LEAF`, then the program from the leaf to the root.
pub open spec fn path_proof<H: Hasher>(m: Map<H256, H256>, key: H256) -> Seq<u8> {
    seq![OP_LEAF] + path_program::<H>(m, key, 0, 0)
}

/// Merging the node on the path with its sibling gives the next node on the
/// path.
pub proof fn lemma_merge_up_path<H: Hasher>(m: Map<H256, H256>, key: H256, h: nat)
    requires
        h < 256,
    ensures
        merge_up::<H>(path_node::<H>(m, key, h), sibling_hash::<H>(m, key, h)) == path_node::<H>(
            m,
            key,
            h + 1,
        ),
{
    lemma_path_keys(key, h);
    lemma_path_step::<H>(m, key, h);
}

/// Merging the node on the path with `n` zero siblings, where the siblings
/// are zero, gives the node `n` levels up on the path.
pub proof fn lemma_merge_zeros_path<H: Hasher>(m: Map<H256, H256>, key: H256, from: nat, n: nat)
    requires
        from + n <= 256,
        forall|j: nat|
            from <= j < from + n ==> #[trigger] sibling_hash::<H>(m, key, j) == H256::zero_spec(),
    ensures
        merge_zeros::<H>(path_node::<H>(m, key, from), n) == path_node::<H>(m, key, from + n),
    decreases n,
{
    if n > 0 {
        lemma_merge_zeros_path::<H>(m, key, from, (n - 1) as nat);
        let top = (from + n - 1) as nat;
        assert(sibling_hash::<H>(m, key, top) == H256::zero_spec());
        lemma_merge_up_path::<H>(m, key, top);
    }
}

/// An `OP_SIBLING` instruction merges the top of the stack with the sibling
/// that it holds.
pub proof fn lemma_run_sibling<H: Hasher>(
    leaves: Seq<(H256, H256)>,
    below: Seq<ProofNode>,
    used: nat,
    node: ProofNode,
    sibling: H256,
    rest: Seq<u8>,
)
    requires
        node.height < 256,
    ensures
        run::<H>(
            leaves,
            Machine { stack: below.push(node), used },
            seq![OP_SIBLING] + sibling@ + rest,
        ) == run::<H>(
            leaves,
            Machine { stack: below.push(merge_up::<H>(node, sibling)), used },
            rest,
        ),
{
    broadcast use vstd::array::group_array_axioms;

    let program = seq![OP_SIBLING] + sibling@ + rest;
    let now = Machine { stack: below.push(node), used };
    assert(program[0] == OP_SIBLING);
    assert(program.subrange(1, 33) =~= sibling@);
    H256::lemma_from_seq_view(sibling);
    assert(program.skip(33) =~= rest);
    assert(now.stack.drop_last() =~= below);
}

/// An `OP_ZEROS` instruction for `n` zero siblings merges the top of the
/// stack `n` times with zero.
pub proof fn lemma_run_zeros<H: Hasher>(
    leaves: Seq<(H256, H256)>,
    below: Seq<ProofNode>,
    used: nat,
    node: ProofNode,
    n: nat,
    rest: Seq<u8>,
)
    requires
        node.height + n <= 256,
    ensures
        run::<H>(leaves, Machine { stack: below.push(node), used }, zeros_instruction(n) + rest)
            == run::<H>(
            leaves,
            Machine { stack: below.push(merge_zeros::<H>(node, n)), used },
            rest,
        ),
{
    let program = zeros_instruction(n) + rest;
    let now = Machine { stack: below.push(node), used };
    if n == 0 {
        assert(program =~= rest);
    } else {
        assert(program[0] == OP_ZEROS);
        assert(program[1] == (n % 256) as u8);
        assert(zero_count(program[1]) == n);
        assert(program.skip(2) =~= rest);
        assert(now.stack.drop_last() =~= below);
    }
}

/// The program for the path of `key` from height `from` leads to the node at
/// height 256, whatever lies below on the stack: it starts from the node
/// `pending` levels below `from`, where the siblings from there to `from` are
/// zero.
pub proof fn lemma_run_path<H: Hasher>(
    leaves: Seq<(H256, H256)>,
    below: Seq<ProofNode>,
    used: nat,
    m: Map<H256, H256>,
    key: H256,
    from: nat,
    pending: nat,
)
    requires
        pending <= from <= 256,
        forall|j: nat|
            from - pending <= j < from ==> #[trigger] sibling_hash::<H>(m, key, j)
                == H256::zero_spec(),
    ensures
        run::<H>(
            leaves,
            Machine {
                stack: below.push(path_node::<H>(m, key, (from - pending) as nat)),
                used,
            },
            path_program::<H>(m, key, from, pending),
        ) == Some(Machine { stack: below.push(path_node::<H>(m, key, 256)), used }),
    decreases 256 - from,
{
    let base = path_node::<H>(m, key, (from - pending) as nat);
    lemma_merge_zeros_path::<H>(m, key, (from - pending) as nat, pending);
    if from >= 256 {
        lemma_run_zeros::<H>(leaves, below, used, base, pending, Seq::empty());
        assert(zeros_instruction(pending) + Seq::<u8>::empty() =~= zeros_instruction(pending));
    } else {
        let sibling = sibling_hash::<H>(m, key, from);
        if sibling == H256::zero_spec() {
            lemma_run_path::<H>(leaves, below, used, m, key, from + 1, pending + 1);
        } else {
            let rest = path_program::<H>(m, key, from + 1, 0);
            let tail = seq![OP_SIBLING] + sibling@ + rest;
            assert(path_program::<H>(m, key, from, pending) =~= zeros_instruction(pending) + tail);
            lemma_run_zeros::<H>(leaves, below, used, base, pending, tail);
            lemma_run_sibling::<H>(
                leaves,
                below,
                used,
                path_node::<H>(m, key, from),
                sibling,
                rest,
            );
            lemma_merge_up_path::<H>(m, key, from);
            lemma_run_path::<H>(leaves, below, used, m, key, from + 1, 0);
        }
    }
}

/// The proof for one key leads from the leaf under that key to the root of
/// the tree.
pub proof fn lemma_path_proof_root<H: Hasher>(m: Map<H256, H256>, key: H256)
    ensures
        proof_root::<H>(seq![(key, leaf_hash(m, key))], path_proof::<H>(m, key)) == Some(
            root_hash::<H>(m),
        ),
{
    broadcast use H256::lemma_prefix_bit, H256::lemma_zero_bit;

    let leaves = seq![(key, leaf_hash(m, key))];
    let program = path_proof::<H>(m, key);
    let start = Machine { stack: Seq::empty(), used: 0 };
    H256::lemma_bits_ext(key.prefix(0), key);
    H256::lemma_bits_ext(key.prefix(256), H256::zero_spec());
    assert(program[0] == OP_LEAF);
    assert(program.skip(1) =~= path_program::<H>(m, key, 0, 0));
    assert(leaf_node(leaves[0]) == path_node::<H>(m, key, 0));
    assert(step::<H>(leaves, start, program) == Some(
        Machine { stack: Seq::<ProofNode>::empty().push(path_node::<H>(m, key, 0)), used: 1 },
    ));
    lemma_run_path::<H>(leaves, Seq::empty(), 1, m, key, 0, 0);
}

} // verus!

use sparse_merkle_tree::ckb_smt::{SMTBuilder, SMT};
use sparse_merkle_tree::error::{MALFORMED_PROOF, ROOT_MISMATCH};
use sparse_merkle_tree::h256::H256;
use sparse_merkle_tree::merge::merge;
use sparse_merkle_tree::merkle_proof::check_structure;
use sparse_merkle_tree::traits::Hasher;

/// A small mixing hash, good enough to tell different inputs apart in tests.
struct MixHasher {
    lanes: [u64; 4],
}

impl Hasher for MixHasher {
    fn written(&self) -> vstd::seq::Seq<u8> {
        unreachable!()
    }

    fn digest(_bytes: vstd::seq::Seq<u8>) -> H256 {
        unreachable!()
    }

    fn new() -> Self {
        MixHasher {
            lanes: [
                0xcbf2_9ce4_8422_2325,
                0x9e37_79b9_7f4a_7c15,
                0xc2b2_ae3d_27d4_eb4f,
                0x1656_67b1_9e37_79f9,
            ],
        }
    }

    fn write_h256(&mut self, h: &H256) {
        for b in h.bytes.iter() {
            self.write_byte(*b);
        }
    }

    fn write_byte(&mut self, b: u8) {
        for (i, lane) in self.lanes.iter_mut().enumerate() {
            *lane ^= (b as u64).wrapping_add(i as u64);
            *lane = lane.wrapping_mul(0x0000_0100_0000_01b3);
            *lane = lane.rotate_left(13 + i as u32);
        }
    }

    fn finish(self) -> H256 {
        let mut bytes = [0u8; 32];
        for (i, lane) in self.lanes.iter().enumerate() {
            bytes[8 * i..8 * i + 8].copy_from_slice(&lane.to_be_bytes());
        }
        H256 { bytes }
    }
}

fn key(last: u8) -> H256 {
    let mut bytes = [0u8; 32];
    bytes[31] = last;
    H256 { bytes }
}

fn filled(b: u8) -> H256 {
    H256 { bytes: [b; 32] }
}

fn single(k: &H256, v: &H256) -> SMT {
    SMTBuilder::new().insert(k, v).unwrap().build().unwrap()
}

/// The root above one leaf where every sibling is zero.
fn lonely_root(k: &H256, v: &H256) -> H256 {
    let mut node = *v;
    for h in 0..=255u8 {
        let parent = k.parent_path(h);
        node = if k.get_bit(h) {
            merge::<MixHasher>(h, &parent, &H256::zero(), &node)
        } else {
            merge::<MixHasher>(h, &parent, &node, &H256::zero())
        };
    }
    node
}

#[test]
fn get_returns_zero_for_absent_key() {
    let smt = single(&key(1), &filled(0x11));
    assert_eq!(smt.get(&key(2).bytes), Ok([0u8; 32]));
    assert_eq!(smt.get(&key(1).bytes), Ok([0x11u8; 32]));
}

#[test]
fn later_insert_wins() {
    let smt = SMTBuilder::new()
        .insert(&key(1), &filled(0x11))
        .unwrap()
        .insert(&key(1), &filled(0x22))
        .unwrap()
        .build()
        .unwrap();
    assert_eq!(smt.get(&key(1).bytes), Ok([0x22u8; 32]));
}

#[test]
fn update_overrides_and_adds() {
    let mut smt = single(&key(1), &filled(0x11));
    assert_eq!(smt.update(&key(1).bytes, &[0x33; 32]), Ok(()));
    assert_eq!(smt.update(&key(7).bytes, &[0x44; 32]), Ok(()));
    assert_eq!(smt.get(&key(1).bytes), Ok([0x33u8; 32]));
    assert_eq!(smt.get(&key(7).bytes), Ok([0x44u8; 32]));
    smt.normalize();
    assert_eq!(smt.get(&key(1).bytes), Ok([0x33u8; 32]));
    assert_eq!(smt.get(&key(7).bytes), Ok([0x44u8; 32]));
    assert_eq!(smt.get(&key(2).bytes), Ok([0u8; 32]));
}

#[test]
fn single_leaf_all_zero_siblings() {
    let smt = single(&key(1), &filled(0x11));
    // one leaf, then 256 zero siblings
    let proof = [0x4Cu8, 0x4F, 0x00];
    let root = smt.calculate_root::<MixHasher>(&proof).unwrap();
    let expected = lonely_root(&key(1), &filled(0x11));
    assert_eq!(root, expected.bytes);
    assert_eq!(smt.verify::<MixHasher>(&expected, &proof), Ok(()));
    assert_eq!(smt.verify::<MixHasher>(&filled(0x33), &proof), Err(ROOT_MISMATCH));
}

#[test]
fn zero_runs_add_up() {
    let smt = single(&key(1), &filled(0x11));
    let whole = smt.calculate_root::<MixHasher>(&[0x4C, 0x4F, 0x00]).unwrap();
    let split = smt.calculate_root::<MixHasher>(&[0x4C, 0x4F, 0x01, 0x4F, 0xFF]).unwrap();
    assert_eq!(whole, split);
    // 257 levels are one too many
    assert_eq!(
        smt.calculate_root::<MixHasher>(&[0x4C, 0x4F, 0x02, 0x4F, 0xFF]),
        Err(MALFORMED_PROOF)
    );
    // 255 levels are one too few
    assert_eq!(smt.calculate_root::<MixHasher>(&[0x4C, 0x4F, 0xFF]), Err(MALFORMED_PROOF));
}

#[test]
fn explicit_zero_sibling_equals_zero_run() {
    let smt = single(&key(1), &filled(0x11));
    let mut proof = vec![0x4Cu8, 0x50];
    proof.extend_from_slice(&[0u8; 32]);
    proof.extend_from_slice(&[0x4F, 0xFF]);
    assert_eq!(
        smt.calculate_root::<MixHasher>(&proof),
        smt.calculate_root::<MixHasher>(&[0x4C, 0x4F, 0x00])
    );
}

#[test]
fn two_neighbours_join() {
    // keys ..00 and ..01 are the two children of the node at height 0
    let smt = SMTBuilder::new()
        .insert(&key(1), &filled(0x22))
        .unwrap()
        .insert(&key(0), &filled(0x11))
        .unwrap()
        .build()
        .unwrap();
    let proof = [0x4Cu8, 0x4C, 0x48, 0x4F, 0xFF];
    let root = smt.calculate_root::<MixHasher>(&proof).unwrap();
    let mut node = merge::<MixHasher>(0, &key(0), &filled(0x11), &filled(0x22));
    for h in 1..=255u8 {
        node = merge::<MixHasher>(h, &H256::zero(), &node, &H256::zero());
    }
    assert_eq!(root, node.bytes);
}

#[test]
fn join_needs_siblings() {
    // ..01 and ..02 are not children of one node at height 0
    let smt = SMTBuilder::new()
        .insert(&key(1), &filled(0x11))
        .unwrap()
        .insert(&key(2), &filled(0x22))
        .unwrap()
        .build()
        .unwrap();
    assert_eq!(
        smt.calculate_root::<MixHasher>(&[0x4C, 0x4C, 0x48, 0x4F, 0xFF]),
        Err(MALFORMED_PROOF)
    );
    // raised by one level each they are
    let proof = [0x4Cu8, 0x4F, 0x01, 0x4C, 0x4F, 0x01, 0x48, 0x4F, 0xFE];
    assert!(smt.calculate_root::<MixHasher>(&proof).is_ok());
    // a join of entries at different heights is refused
    assert_eq!(
        smt.calculate_root::<MixHasher>(&[0x4C, 0x4F, 0x01, 0x4C, 0x48, 0x4F, 0xFE]),
        Err(MALFORMED_PROOF)
    );
}

#[test]
fn malformed_proofs_are_told_apart_from_mismatch() {
    let smt = single(&key(1), &filled(0x11));
    // sibling cut short
    assert_eq!(smt.calculate_root::<MixHasher>(&[0x4C, 0x50, 0x01]), Err(MALFORMED_PROOF));
    // zero run without its count
    assert_eq!(smt.calculate_root::<MixHasher>(&[0x4C, 0x4F]), Err(MALFORMED_PROOF));
    // no instruction at all
    assert_eq!(smt.calculate_root::<MixHasher>(&[]), Err(MALFORMED_PROOF));
    // unknown instruction
    assert_eq!(smt.calculate_root::<MixHasher>(&[0x4C, 0x4F, 0x00, 0x00]), Err(MALFORMED_PROOF));
    // more leaves asked for than claimed
    assert_eq!(smt.calculate_root::<MixHasher>(&[0x4C, 0x4C]), Err(MALFORMED_PROOF));
    // a sibling without anything on the stack
    assert_eq!(smt.calculate_root::<MixHasher>(&[0x4F, 0x00]), Err(MALFORMED_PROOF));
    // a join with one entry
    assert_eq!(smt.calculate_root::<MixHasher>(&[0x4C, 0x48]), Err(MALFORMED_PROOF));
    // the root not reached
    assert_eq!(smt.verify::<MixHasher>(&filled(1), &[0x4C]), Err(MALFORMED_PROOF));
    // a claimed leaf left unused
    let two = SMTBuilder::new()
        .insert(&key(1), &filled(0x11))
        .unwrap()
        .insert(&key(2), &filled(0x22))
        .unwrap()
        .build()
        .unwrap();
    assert_eq!(two.calculate_root::<MixHasher>(&[0x4C, 0x4F, 0x00]), Err(MALFORMED_PROOF));
}

#[test]
fn build_sorts_by_key() {
    // the proof takes the leaves in the order of the keys, whatever the order
    // of insertion
    let a = SMTBuilder::new()
        .insert(&key(1), &filled(0x22))
        .unwrap()
        .insert(&key(0), &filled(0x11))
        .unwrap()
        .build()
        .unwrap();
    let b = SMTBuilder::new()
        .insert(&key(0), &filled(0x11))
        .unwrap()
        .insert(&key(1), &filled(0x22))
        .unwrap()
        .build()
        .unwrap();
    let proof = [0x4Cu8, 0x4C, 0x48, 0x4F, 0xFF];
    assert_eq!(a.calculate_root::<MixHasher>(&proof), b.calculate_root::<MixHasher>(&proof));
}

#[test]
fn normalize_twice_is_normalize_once() {
    let mut smt = single(&key(9), &filled(0x11));
    smt.update(&key(3).bytes, &[0x22; 32]).unwrap();
    smt.update(&key(9).bytes, &[0x33; 32]).unwrap();
    smt.normalize();
    let proof = [0x4Cu8, 0x4F, 0x02, 0x4C, 0x4F, 0x02, 0x4F, 0x01, 0x48, 0x4F, 0xFC];
    let once = smt.calculate_root::<MixHasher>(&proof);
    smt.normalize();
    let twice = smt.calculate_root::<MixHasher>(&proof);
    assert_eq!(once, twice);
    assert_eq!(smt.calculate_root::<MixHasher>(&proof), twice);
}

/// A hasher that must not be used.
struct NoHasher;

impl Hasher for NoHasher {
    fn written(&self) -> vstd::seq::Seq<u8> {
        unreachable!()
    }

    fn digest(_bytes: vstd::seq::Seq<u8>) -> H256 {
        unreachable!()
    }

    fn new() -> Self {
        panic!("a malformed proof must be refused before anything is hashed")
    }

    fn write_h256(&mut self, _: &H256) {}

    fn write_byte(&mut self, _: u8) {}

    fn finish(self) -> H256 {
        H256::zero()
    }
}

#[test]
fn malformed_proof_is_refused_before_hashing() {
    let smt = single(&key(1), &filled(0x11));
    // a sibling, then a zero run that lacks its count
    let mut proof = vec![0x4Cu8, 0x50];
    proof.extend_from_slice(&[0xEE; 32]);
    proof.push(0x4F);
    assert_eq!(smt.calculate_root::<NoHasher>(&proof), Err(MALFORMED_PROOF));
    assert_eq!(smt.verify::<NoHasher>(&filled(1), &proof), Err(MALFORMED_PROOF));
    // a sibling, then one level too few
    proof.push(0xFE);
    assert_eq!(smt.calculate_root::<NoHasher>(&proof), Err(MALFORMED_PROOF));
    // an unknown instruction at the very end
    let proof = [0x4Cu8, 0x4F, 0x00, 0x99];
    assert_eq!(smt.verify::<NoHasher>(&filled(1), &proof), Err(MALFORMED_PROOF));
}

#[test]
fn structure_check_agrees_with_the_run() {
    let leaves = vec![(key(1), filled(0x11)), (key(2), filled(0x22))];
    assert!(check_structure(&leaves, &[0x4C, 0x4F, 0x01, 0x4C, 0x4F, 0x01, 0x48, 0x4F, 0xFE]));
    assert!(!check_structure(&leaves, &[0x4C, 0x4C, 0x48, 0x4F, 0xFF]));
    assert!(!check_structure(&leaves, &[0x4C, 0x4F, 0x00]));
    assert!(!check_structure(&leaves, &[]));
    assert!(check_structure(&leaves[..1].to_vec(), &[0x4C, 0x4F, 0x00]));
}

#[test]
fn empty_set_has_the_zero_root() {
    let empty = SMTBuilder::new().build().unwrap();
    assert_eq!(empty.calculate_root::<MixHasher>(&[]), Ok([0u8; 32]));
    assert_eq!(empty.verify::<MixHasher>(&H256::zero(), &[]), Ok(()));
    assert_eq!(empty.verify::<MixHasher>(&filled(1), &[]), Err(ROOT_MISMATCH));
    // nothing is hashed for it
    assert_eq!(empty.calculate_root::<NoHasher>(&[]), Ok([0u8; 32]));
    // no instruction can be carried out without a leaf
    assert_eq!(empty.calculate_root::<MixHasher>(&[0x4C]), Err(MALFORMED_PROOF));
    assert_eq!(empty.calculate_root::<MixHasher>(&[0x4F, 0x00]), Err(MALFORMED_PROOF));
    assert_eq!(empty.calculate_root::<MixHasher>(&[0x48]), Err(MALFORMED_PROOF));
    assert_eq!(empty.calculate_root::<MixHasher>(&[0x00]), Err(MALFORMED_PROOF));
    assert!(check_structure(&Vec::new(), &[]));
    assert!(!check_structure(&Vec::new(), &[0x4C]));
    // a set with a leaf has no root without a proof
    let one = single(&key(1), &filled(0x11));
    assert_eq!(one.calculate_root::<MixHasher>(&[]), Err(MALFORMED_PROOF));
}

#[test]
fn zero_valued_pair_adds_nothing_to_the_root() {
    // to the empty set
    let empty = SMTBuilder::new().build().unwrap();
    let only_zero = single(&key(5), &H256::zero());
    assert_eq!(
        only_zero.calculate_root::<MixHasher>(&[0x4C, 0x4F, 0x00]),
        empty.calculate_root::<MixHasher>(&[])
    );
    // to a set with a pair: ..00 with a value, ..01 with zero
    let one = single(&key(0), &filled(0x11));
    let with_zero = SMTBuilder::new()
        .insert(&key(0), &filled(0x11))
        .unwrap()
        .insert(&key(1), &H256::zero())
        .unwrap()
        .build()
        .unwrap();
    assert_eq!(
        with_zero.calculate_root::<MixHasher>(&[0x4C, 0x4C, 0x48, 0x4F, 0xFF]),
        one.calculate_root::<MixHasher>(&[0x4C, 0x4F, 0x00])
    );
    assert_eq!(
        one.calculate_root::<MixHasher>(&[0x4C, 0x4F, 0x00]),
        Ok(lonely_root(&key(0), &filled(0x11)).bytes)
    );
}

#[test]
fn omitted_sibling_is_the_zero_sibling() {
    // every sibling written out as 32 zero bytes
    let one = single(&key(3), &filled(0x11));
    let mut long = vec![0x4Cu8];
    for _ in 0..256 {
        long.push(0x50);
        long.extend_from_slice(&[0u8; 32]);
    }
    assert_eq!(
        one.calculate_root::<MixHasher>(&long),
        one.calculate_root::<MixHasher>(&[0x4C, 0x4F, 0x00])
    );
}

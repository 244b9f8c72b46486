use sparse_merkle_tree::ckb_smt::{SMTBuilder, SMT};
use sparse_merkle_tree::error::{Error, MALFORMED_PROOF, ROOT_MISMATCH};
use sparse_merkle_tree::h256::H256;
use sparse_merkle_tree::memory_store::MemoryStore;
use sparse_merkle_tree::traits::{Hasher, Store, Value};
use sparse_merkle_tree::tree::{BranchKey, BranchNode, SparseMerkleTree};

/// A small mixing hash, good enough to tell different inputs apart in tests.
struct MixHasher {
    lanes: [u64; 4],
}

impl Hasher for MixHasher {
    fn written(&self) -> vstd::seq::Seq<u8> {
        unreachable!()
    }

    fn digest(_bytes: vstd::seq::Seq<u8>) -> H256 {
        unreachable!()
    }

    fn new() -> Self {
        MixHasher {
            lanes: [
                0xcbf2_9ce4_8422_2325,
                0x9e37_79b9_7f4a_7c15,
                0xc2b2_ae3d_27d4_eb4f,
                0x1656_67b1_9e37_79f9,
            ],
        }
    }

    fn write_h256(&mut self, h: &H256) {
        for b in h.bytes.iter() {
            self.write_byte(*b);
        }
    }

    fn write_byte(&mut self, b: u8) {
        for (i, lane) in self.lanes.iter_mut().enumerate() {
            *lane ^= (b as u64).wrapping_add(i as u64);
            *lane = lane.wrapping_mul(0x0000_0100_0000_01b3);
            *lane = lane.rotate_left(13 + i as u32);
        }
    }

    fn finish(self) -> H256 {
        let mut bytes = [0u8; 32];
        for (i, lane) in self.lanes.iter().enumerate() {
            bytes[8 * i..8 * i + 8].copy_from_slice(&lane.to_be_bytes());
        }
        H256 { bytes }
    }
}

fn key(last: u8) -> H256 {
    let mut bytes = [0u8; 32];
    bytes[31] = last;
    H256 { bytes }
}

fn filled(b: u8) -> H256 {
    H256 { bytes: [b; 32] }
}

type Tree = SparseMerkleTree<MixHasher, H256, MemoryStore<H256>>;

fn empty_tree() -> Tree {
    Tree::new(H256::zero(), MemoryStore::new())
}

fn claim(k: &H256, v: &H256) -> SMT {
    SMTBuilder::new().insert(k, v).unwrap().build().unwrap()
}

/// A store whose every operation fails.
struct BrokenStore;

impl Store<H256> for BrokenStore {
    fn reliable(&self) -> bool {
        unreachable!()
    }

    fn branches(&self) -> vstd::map::Map<BranchKey, BranchNode> {
        unreachable!()
    }

    fn leaves(&self) -> vstd::map::Map<H256, H256> {
        unreachable!()
    }

    fn get_branch(&self, _: &BranchKey) -> Result<Option<BranchNode>, Error> {
        Err(Error::Store(String::from("disk on fire")))
    }

    fn get_leaf(&self, _: &H256) -> Result<Option<H256>, Error> {
        Err(Error::Store(String::from("disk on fire")))
    }

    fn prefetch_branches(&self, _: &Vec<BranchKey>) -> Result<Vec<Option<BranchNode>>, Error> {
        Err(Error::Store(String::from("disk on fire")))
    }

    fn insert_branch(&mut self, _: BranchKey, _: BranchNode) -> Result<(), Error> {
        Err(Error::Store(String::from("disk on fire")))
    }

    fn insert_leaf(&mut self, _: H256, _: H256) -> Result<(), Error> {
        Err(Error::Store(String::from("disk on fire")))
    }

    fn remove_branch(&mut self, _: &BranchKey) -> Result<(), Error> {
        Err(Error::Store(String::from("disk on fire")))
    }

    fn remove_leaf(&mut self, _: &H256) -> Result<(), Error> {
        Err(Error::Store(String::from("disk on fire")))
    }
}

#[test]
fn empty_tree_has_zero_root() {
    let tree = empty_tree();
    assert_eq!(*tree.root(), H256::zero());
    assert!(tree.is_empty());
    assert_eq!(tree.get(&key(1)), Ok(H256::zero()));
}

#[test]
fn insert_two_delete_one() {
    let k1 = key(1);
    let v1 = filled(0x11);
    let k2 = key(2);
    let v2 = filled(0x22);

    let mut tree = empty_tree();
    assert_eq!(*tree.root(), H256::zero());
    let r1 = tree.update(k1, v1).unwrap();
    assert_ne!(r1, H256::zero());
    assert_eq!(*tree.root(), r1);
    let r2 = tree.update(k2, v2).unwrap();
    assert_ne!(r2, r1);
    let after_delete = tree.update(k1, H256::zero()).unwrap();

    let mut only_k2 = empty_tree();
    let expected = only_k2.update(k2, v2).unwrap();
    assert_eq!(after_delete, expected);
    assert_eq!(tree.get(&k1), Ok(H256::zero()));
    assert_eq!(tree.get(&k2), Ok(v2));

    let proof = tree.merkle_proof(k2).unwrap();
    let claims = claim(&k2, &v2);
    assert_eq!(claims.verify::<MixHasher>(&after_delete, &proof), Ok(()));
    assert_eq!(claims.verify::<MixHasher>(&r1, &proof), Err(ROOT_MISMATCH));
}

#[test]
fn root_does_not_depend_on_order() {
    let pairs = [
        (key(1), filled(0x11)),
        (key(2), filled(0x22)),
        (filled(0xAB), filled(0x33)),
        (key(0x80), filled(0x44)),
    ];
    let mut forward = empty_tree();
    for (k, v) in pairs.iter() {
        forward.update(*k, *v).unwrap();
    }
    let mut backward = empty_tree();
    for (k, v) in pairs.iter().rev() {
        backward.update(*k, *v).unwrap();
    }
    let mut batch = empty_tree();
    batch.update_all(pairs.to_vec()).unwrap();
    assert_eq!(forward.root(), backward.root());
    assert_eq!(forward.root(), batch.root());
    // the stores hold the same number of records too
    let f = forward.take_store();
    let b = backward.take_store();
    for h in 0..=255u8 {
        for (k, _) in pairs.iter() {
            let bk = BranchKey { height: h, node_key: k.parent_path(h) };
            assert_eq!(f.get_branch(&bk), b.get_branch(&bk));
        }
    }
}

#[test]
fn later_write_in_batch_wins() {
    let mut batch = empty_tree();
    batch
        .update_all(vec![(key(1), filled(0x11)), (key(2), filled(0x22)), (key(1), filled(0x33))])
        .unwrap();
    assert_eq!(batch.get(&key(1)), Ok(filled(0x33)));
    let mut plain = empty_tree();
    plain.update(key(2), filled(0x22)).unwrap();
    plain.update(key(1), filled(0x33)).unwrap();
    assert_eq!(batch.root(), plain.root());
}

#[test]
fn writing_zero_is_never_having_written() {
    let mut with = empty_tree();
    with.update(key(5), filled(0x55)).unwrap();
    let before = *with.root();
    let after = with.update(key(9), H256::zero()).unwrap();
    assert_eq!(before, after);

    let mut gone = empty_tree();
    gone.update(key(9), filled(0x99)).unwrap();
    gone.update(key(9), H256::zero()).unwrap();
    assert_eq!(*gone.root(), H256::zero());
    assert!(gone.is_empty());
    // nothing is left in the store
    let store = gone.take_store();
    for h in 0..=255u8 {
        let bk = BranchKey { height: h, node_key: key(9).parent_path(h) };
        assert_eq!(store.get_branch(&bk), Ok(None));
    }
    assert_eq!(store.get_leaf(&key(9)), Ok(None));
}

#[test]
fn store_can_be_read_through_the_tree() {
    let mut tree = empty_tree();
    tree.update(key(5), filled(0x55)).unwrap();
    assert_eq!(tree.store().get_leaf(&key(5)), Ok(Some(filled(0x55))));
    let top = BranchKey { height: 255, node_key: H256::zero() };
    let node = tree.store().get_branch(&top).unwrap().unwrap();
    assert_ne!(node.left, H256::zero());
    assert_eq!(node.right, H256::zero());
    assert_eq!(
        sparse_merkle_tree::merge::merge::<MixHasher>(255, &H256::zero(), &node.left, &node.right),
        *tree.root()
    );
}

#[test]
fn writing_twice_changes_nothing() {
    let mut tree = empty_tree();
    tree.update(key(5), filled(0x55)).unwrap();
    let once = *tree.root();
    let twice = tree.update(key(5), filled(0x55)).unwrap();
    assert_eq!(once, twice);
    assert_eq!(*tree.root(), *tree.root());
}

#[test]
fn proof_for_present_key_verifies() {
    let mut tree = empty_tree();
    let pairs = [
        (key(1), filled(0x11)),
        (key(2), filled(0x22)),
        (key(3), filled(0x33)),
        (filled(0xF0), filled(0x44)),
    ];
    for (k, v) in pairs.iter() {
        tree.update(*k, *v).unwrap();
    }
    let root = *tree.root();
    for (k, _) in pairs.iter() {
        let v = tree.get(k).unwrap();
        let proof = tree.merkle_proof(*k).unwrap();
        assert_eq!(claim(k, &v).verify::<MixHasher>(&root, &proof), Ok(()));
        assert_eq!(claim(k, &v).calculate_root::<MixHasher>(&proof), Ok(root.bytes));
    }
}

#[test]
fn proof_for_absent_key_verifies() {
    let mut tree = empty_tree();
    tree.update(key(1), filled(0x11)).unwrap();
    tree.update(key(2), filled(0x22)).unwrap();
    let root = *tree.root();
    let absent = key(3);
    assert_eq!(tree.get(&absent), Ok(H256::zero()));
    let proof = tree.merkle_proof(absent).unwrap();
    assert_eq!(claim(&absent, &H256::zero()).verify::<MixHasher>(&root, &proof), Ok(()));
    // the same proof does not carry a value for the key
    assert_eq!(
        claim(&absent, &filled(0x33)).verify::<MixHasher>(&root, &proof),
        Err(ROOT_MISMATCH)
    );
    // in an empty tree every key is absent
    let empty = empty_tree();
    let proof = empty.merkle_proof(absent).unwrap();
    assert_eq!(proof, vec![0x4C, 0x4F, 0x00]);
    assert_eq!(claim(&absent, &H256::zero()).verify::<MixHasher>(&H256::zero(), &proof), Ok(()));
}

#[test]
fn proof_holds_only_the_siblings_that_are_not_zero() {
    let mut tree = empty_tree();
    tree.update(key(1), filled(0x11)).unwrap();
    tree.update(key(2), filled(0x22)).unwrap();
    // ..01 and ..10 part at height 1: one zero sibling, one sibling, 254 zeros
    let proof = tree.merkle_proof(key(1)).unwrap();
    let mut expected = vec![0x4Cu8, 0x4F, 0x01, 0x50];
    let sibling = sparse_merkle_tree::merge::merge::<MixHasher>(
        0,
        &key(2),
        &filled(0x22),
        &H256::zero(),
    );
    expected.extend_from_slice(&sibling.bytes);
    expected.extend_from_slice(&[0x4F, 0xFE]);
    assert_eq!(proof, expected);
}

#[test]
fn tampered_sibling_is_a_root_mismatch() {
    let mut tree = empty_tree();
    tree.update(key(1), filled(0x11)).unwrap();
    tree.update(key(2), filled(0x22)).unwrap();
    tree.update(filled(0xF0), filled(0x44)).unwrap();
    let root = *tree.root();
    let proof = tree.merkle_proof(key(1)).unwrap();
    let claims = claim(&key(1), &filled(0x11));
    assert_eq!(claims.verify::<MixHasher>(&root, &proof), Ok(()));
    // the first sibling hash starts after: leaf, zero run with count, sibling
    let first = 4;
    for at in first..first + 32 {
        let mut bad = proof.clone();
        bad[at] ^= 0x01;
        assert_eq!(claims.verify::<MixHasher>(&root, &bad), Err(ROOT_MISMATCH));
    }
    // a proof cut short is malformed, not a mismatch
    assert_eq!(
        claims.verify::<MixHasher>(&root, &proof[..proof.len() - 1]),
        Err(MALFORMED_PROOF)
    );
}

#[test]
fn stale_root_is_a_root_mismatch() {
    let mut tree = empty_tree();
    let old_root = tree.update(key(1), filled(0x11)).unwrap();
    tree.update(key(2), filled(0x22)).unwrap();
    let proof = tree.merkle_proof(key(1)).unwrap();
    assert_eq!(
        claim(&key(1), &filled(0x11)).verify::<MixHasher>(&old_root, &proof),
        Err(ROOT_MISMATCH)
    );
}

#[test]
fn store_failure_comes_through() {
    let mut tree: SparseMerkleTree<MixHasher, H256, BrokenStore> =
        SparseMerkleTree::new(H256::zero(), BrokenStore);
    let failure = Err(Error::Store(String::from("disk on fire")));
    assert_eq!(tree.update(key(1), filled(0x11)), failure);
    assert_eq!(tree.update(key(1), H256::zero()), failure);
    assert_eq!(tree.get(&key(1)), failure);
    assert_eq!(tree.merkle_proof(key(1)), Err(Error::Store(String::from("disk on fire"))));
    assert_eq!(tree.update_all(vec![(key(1), filled(0x11))]), failure);
}

#[test]
fn memory_store_keeps_the_last_write() {
    let mut store: MemoryStore<H256> = MemoryStore::new();
    let bk = BranchKey { height: 3, node_key: key(0x10) };
    let node = BranchNode { left: filled(1), right: filled(2) };
    assert_eq!(store.get_branch(&bk), Ok(None));
    store.insert_branch(bk, node).unwrap();
    assert_eq!(store.get_branch(&bk), Ok(Some(node)));
    let other = BranchNode { left: filled(3), right: H256::zero() };
    store.insert_branch(bk, other).unwrap();
    assert_eq!(store.get_branch(&bk), Ok(Some(other)));
    let elsewhere = BranchKey { height: 4, node_key: key(0x10) };
    assert_eq!(
        store.prefetch_branches(&vec![elsewhere, bk]),
        Ok(vec![None, Some(other)])
    );
    store.remove_branch(&bk).unwrap();
    assert_eq!(store.get_branch(&bk), Ok(None));
    store.remove_branch(&bk).unwrap();

    store.insert_leaf(key(1), filled(0x11)).unwrap();
    store.insert_leaf(key(2), filled(0x22)).unwrap();
    store.insert_leaf(key(1), filled(0x33)).unwrap();
    assert_eq!(store.get_leaf(&key(1)), Ok(Some(filled(0x33))));
    store.remove_leaf(&key(1)).unwrap();
    assert_eq!(store.get_leaf(&key(1)), Ok(None));
    assert_eq!(store.get_leaf(&key(2)), Ok(Some(filled(0x22))));
}

#[test]
fn value_of_h256_is_itself() {
    assert_eq!(filled(7).to_h256(), filled(7));
    assert_eq!(<H256 as Value>::zero(), H256::zero());
    assert_eq!(<H256 as Value>::zero().to_h256(), H256::zero());
}

fn claims_of(pairs: &[(H256, H256)]) -> SMT {
    let mut builder = SMTBuilder::new();
    for (k, v) in pairs.iter() {
        builder = builder.insert(k, v).unwrap();
    }
    builder.build().unwrap()
}

fn sample_tree() -> Tree {
    let mut tree = empty_tree();
    tree.update_all(vec![
        (key(1), filled(0x11)),
        (key(2), filled(0x22)),
        (key(3), filled(0x33)),
        (key(0x80), filled(0x44)),
        (filled(0xF0), filled(0x55)),
        (filled(0x0F), filled(0x66)),
    ])
    .unwrap();
    tree
}

#[test]
fn proof_for_several_keys_verifies() {
    let tree = sample_tree();
    let root = *tree.root();
    // present and absent keys, out of order, one of them twice
    let keys = vec![filled(0xF0), key(2), key(9), key(1), key(2), filled(0x33)];
    let (claims, proof) = tree.merkle_proof_all(&keys).unwrap();
    assert_eq!(
        claims,
        vec![
            (key(1), filled(0x11)),
            (key(2), filled(0x22)),
            (key(9), H256::zero()),
            (filled(0x33), H256::zero()),
            (filled(0xF0), filled(0x55)),
        ]
    );
    let smt = claims_of(&claims);
    assert_eq!(smt.verify::<MixHasher>(&root, &proof), Ok(()));
    assert_eq!(smt.calculate_root::<MixHasher>(&proof), Ok(root.bytes));
    // the claims in another order of insertion give the same set
    let mut reversed = claims.clone();
    reversed.reverse();
    assert_eq!(claims_of(&reversed).verify::<MixHasher>(&root, &proof), Ok(()));
    // a wrong value among the claims
    let mut wrong = claims.clone();
    wrong[2].1 = filled(0x99);
    assert_eq!(claims_of(&wrong).verify::<MixHasher>(&root, &proof), Err(ROOT_MISMATCH));
    // a claim too few
    assert_eq!(claims_of(&claims[1..]).verify::<MixHasher>(&root, &proof), Err(MALFORMED_PROOF));
}

#[test]
fn proof_for_all_keys_holds_no_sibling() {
    let mut tree = empty_tree();
    tree.update(key(0), filled(0x11)).unwrap();
    tree.update(key(1), filled(0x22)).unwrap();
    let (claims, proof) = tree.merkle_proof_all(&vec![key(1), key(0)]).unwrap();
    assert_eq!(claims, vec![(key(0), filled(0x11)), (key(1), filled(0x22))]);
    assert_eq!(proof, vec![0x4C, 0x4C, 0x48, 0x4F, 0xFF]);
    assert_eq!(claims_of(&claims).verify::<MixHasher>(tree.root(), &proof), Ok(()));
}

#[test]
fn proof_for_one_key_is_the_path_proof() {
    let tree = sample_tree();
    for k in [key(1), key(3), key(7), filled(0xF0), filled(0xAA)].iter() {
        let (claims, proof) = tree.merkle_proof_all(&vec![*k]).unwrap();
        assert_eq!(claims, vec![(*k, tree.get(k).unwrap())]);
        assert_eq!(proof, tree.merkle_proof(*k).unwrap());
    }
}

#[test]
fn proof_for_no_key_is_the_proof_of_the_empty_tree() {
    let empty = empty_tree();
    let (claims, proof) = empty.merkle_proof_all(&Vec::new()).unwrap();
    assert!(claims.is_empty());
    assert!(proof.is_empty());
    assert_eq!(claims_of(&claims).verify::<MixHasher>(empty.root(), &proof), Ok(()));
    assert_eq!(claims_of(&claims).calculate_root::<MixHasher>(&proof), Ok([0u8; 32]));
    // a tree with leaves gives the same for no keys; it leads to the zero
    // root, not to the root of that tree
    let tree = sample_tree();
    let (claims, proof) = tree.merkle_proof_all(&Vec::new()).unwrap();
    assert!(claims.is_empty());
    assert!(proof.is_empty());
    assert_eq!(claims_of(&claims).verify::<MixHasher>(tree.root(), &proof), Err(ROOT_MISMATCH));
    assert_eq!(claims_of(&claims).verify::<MixHasher>(&H256::zero(), &proof), Ok(()));
}

#[test]
fn proof_for_several_keys_in_an_empty_tree() {
    let tree = empty_tree();
    let (claims, proof) = tree.merkle_proof_all(&vec![key(1), filled(0xF0)]).unwrap();
    assert_eq!(claims, vec![(key(1), H256::zero()), (filled(0xF0), H256::zero())]);
    // the two keys part at the root: 255 zero siblings each, then the join
    assert_eq!(proof, vec![0x4C, 0x4F, 0xFF, 0x4C, 0x4F, 0xFF, 0x48]);
    assert_eq!(claims_of(&claims).verify::<MixHasher>(&H256::zero(), &proof), Ok(()));
}

#[test]
fn tampered_proof_for_several_keys_is_a_root_mismatch() {
    let tree = sample_tree();
    let root = *tree.root();
    let (claims, proof) = tree.merkle_proof_all(&vec![key(1), filled(0xF0)]).unwrap();
    let smt = claims_of(&claims);
    assert_eq!(smt.verify::<MixHasher>(&root, &proof), Ok(()));
    let at = proof.iter().position(|b| *b == 0x50).unwrap() + 1;
    for i in at..at + 32 {
        let mut bad = proof.clone();
        bad[i] ^= 0x80;
        assert_eq!(smt.verify::<MixHasher>(&root, &bad), Err(ROOT_MISMATCH));
    }
}

#[test]
fn store_failure_comes_through_in_proofs() {
    let tree: SparseMerkleTree<MixHasher, H256, BrokenStore> =
        SparseMerkleTree::new(H256::zero(), BrokenStore);
    assert_eq!(
        tree.merkle_proof_all(&vec![key(1)]),
        Err(Error::Store(String::from("disk on fire")))
    );
}

/// A store in memory that can be told to fail its reads, or to fail its
/// writes after some of them.
struct FlakyStore {
    inner: MemoryStore<H256>,
    reads_fail: bool,
    writes_left: Option<usize>,
}

impl FlakyStore {
    fn new() -> Self {
        FlakyStore { inner: MemoryStore::new(), reads_fail: false, writes_left: None }
    }

    fn read<T>(&self, r: Result<T, Error>) -> Result<T, Error> {
        if self.reads_fail {
            Err(Error::Store(String::from("read failed")))
        } else {
            r
        }
    }

    fn may_write(&mut self) -> Result<(), Error> {
        match self.writes_left {
            Some(0) => Err(Error::Store(String::from("write failed"))),
            Some(n) => {
                self.writes_left = Some(n - 1);
                Ok(())
            }
            None => Ok(()),
        }
    }
}

impl Store<H256> for FlakyStore {
    fn reliable(&self) -> bool {
        unreachable!()
    }

    fn branches(&self) -> vstd::map::Map<BranchKey, BranchNode> {
        unreachable!()
    }

    fn leaves(&self) -> vstd::map::Map<H256, H256> {
        unreachable!()
    }

    fn get_branch(&self, k: &BranchKey) -> Result<Option<BranchNode>, Error> {
        self.read(self.inner.get_branch(k))
    }

    fn get_leaf(&self, k: &H256) -> Result<Option<H256>, Error> {
        self.read(self.inner.get_leaf(k))
    }

    fn prefetch_branches(&self, ks: &Vec<BranchKey>) -> Result<Vec<Option<BranchNode>>, Error> {
        self.read(self.inner.prefetch_branches(ks))
    }

    fn insert_branch(&mut self, k: BranchKey, n: BranchNode) -> Result<(), Error> {
        self.may_write()?;
        self.inner.insert_branch(k, n)
    }

    fn insert_leaf(&mut self, k: H256, v: H256) -> Result<(), Error> {
        self.may_write()?;
        self.inner.insert_leaf(k, v)
    }

    fn remove_branch(&mut self, k: &BranchKey) -> Result<(), Error> {
        self.may_write()?;
        self.inner.remove_branch(k)
    }

    fn remove_leaf(&mut self, k: &H256) -> Result<(), Error> {
        self.may_write()?;
        self.inner.remove_leaf(k)
    }
}

type FlakyTree = SparseMerkleTree<MixHasher, H256, FlakyStore>;

#[test]
fn failed_read_changes_nothing() {
    let mut tree = FlakyTree::new(H256::zero(), FlakyStore::new());
    let root = tree.update(key(1), filled(0x11)).unwrap();
    let mut store = tree.take_store();
    store.reads_fail = true;
    // count the writes: none may happen
    store.writes_left = Some(0);
    let mut tree = FlakyTree::new(root, store);
    assert_eq!(
        tree.update(key(2), filled(0x22)),
        Err(Error::Store(String::from("read failed")))
    );
    assert_eq!(*tree.root(), root);
    // with the store mended the tree goes on as if nothing had happened
    let mut store = tree.take_store();
    store.reads_fail = false;
    store.writes_left = None;
    assert_eq!(store.get_leaf(&key(2)), Ok(None));
    let mut tree = FlakyTree::new(root, store);
    let after = tree.update(key(2), filled(0x22)).unwrap();
    let mut clean = empty_tree();
    clean.update(key(1), filled(0x11)).unwrap();
    assert_eq!(after, clean.update(key(2), filled(0x22)).unwrap());
}

#[test]
fn failed_write_leaves_the_root() {
    for writes in [0usize, 1, 2, 100, 256] {
        let mut tree = FlakyTree::new(H256::zero(), FlakyStore::new());
        let root = tree.update(key(1), filled(0x11)).unwrap();
        let mut store = tree.take_store();
        store.writes_left = Some(writes);
        let mut tree = FlakyTree::new(root, store);
        assert_eq!(
            tree.update(key(2), filled(0x22)),
            Err(Error::Store(String::from("write failed")))
        );
        assert_eq!(*tree.root(), root);
    }
    // the leaf and 256 branch nodes are all the writes of one update
    let mut tree = FlakyTree::new(H256::zero(), FlakyStore::new());
    let root = tree.update(key(1), filled(0x11)).unwrap();
    let mut store = tree.take_store();
    store.writes_left = Some(257);
    let mut tree = FlakyTree::new(root, store);
    assert!(tree.update(key(2), filled(0x22)).is_ok());
}

#[test]
fn failed_batch_leaves_the_root() {
    let mut tree = FlakyTree::new(H256::zero(), FlakyStore::new());
    let root = tree.update(key(1), filled(0x11)).unwrap();
    let mut store = tree.take_store();
    // enough for the first pair of the batch, not for the second
    store.writes_left = Some(300);
    let mut tree = FlakyTree::new(root, store);
    assert_eq!(
        tree.update_all(vec![(key(2), filled(0x22)), (key(3), filled(0x33))]),
        Err(Error::Store(String::from("write failed")))
    );
    assert_eq!(*tree.root(), root);
}

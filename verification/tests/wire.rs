use sparse_merkle_tree::error::Error;
use sparse_merkle_tree::h256::H256;
use sparse_merkle_tree::memory_store::MemoryStore;
use sparse_merkle_tree::traits::Hasher;
use sparse_merkle_tree::tree::SparseMerkleTree;
use sparse_merkle_tree::wire::{pack, unpack, verify_packed};

/// A small mixing hash, good enough to tell different inputs apart in tests.
struct MixHasher {
    lanes: [u64; 4],
}

impl Hasher for MixHasher {
    fn written(&self) -> vstd::seq::Seq<u8> {
        unreachable!()
    }

    fn digest(_bytes: vstd::seq::Seq<u8>) -> H256 {
        unreachable!()
    }

    fn new() -> Self {
        MixHasher {
            lanes: [
                0xcbf2_9ce4_8422_2325,
                0x9e37_79b9_7f4a_7c15,
                0xc2b2_ae3d_27d4_eb4f,
                0x1656_67b1_9e37_79f9,
            ],
        }
    }

    fn write_h256(&mut self, h: &H256) {
        for b in h.bytes.iter() {
            self.write_byte(*b);
        }
    }

    fn write_byte(&mut self, b: u8) {
        for (i, lane) in self.lanes.iter_mut().enumerate() {
            *lane ^= (b as u64).wrapping_add(i as u64);
            *lane = lane.wrapping_mul(0x0000_0100_0000_01b3);
            *lane = lane.rotate_left(13 + i as u32);
        }
    }

    fn finish(self) -> H256 {
        let mut bytes = [0u8; 32];
        for (i, lane) in self.lanes.iter().enumerate() {
            bytes[8 * i..8 * i + 8].copy_from_slice(&lane.to_be_bytes());
        }
        H256 { bytes }
    }
}

fn key(last: u8) -> H256 {
    let mut bytes = [0u8; 32];
    bytes[31] = last;
    H256 { bytes }
}

fn filled(b: u8) -> H256 {
    H256 { bytes: [b; 32] }
}

type Tree = SparseMerkleTree<MixHasher, H256, MemoryStore<H256>>;

fn sample_tree() -> Tree {
    let mut tree = Tree::new(H256::zero(), MemoryStore::new());
    tree.update_all(vec![
        (key(1), filled(0x11)),
        (key(2), filled(0x22)),
        (filled(0xF0), filled(0x55)),
    ])
    .unwrap();
    tree
}

#[test]
fn pack_writes_count_claims_proof() {
    let claims = vec![(key(1), filled(0x11)), (key(2), filled(0x22))];
    let bytes = pack(&claims, &[0xAA, 0xBB, 0xCC]);
    let mut expected = vec![2u8, 0, 0, 0, 0, 0, 0, 0];
    expected.extend_from_slice(&key(1).bytes);
    expected.extend_from_slice(&[0x11; 32]);
    expected.extend_from_slice(&key(2).bytes);
    expected.extend_from_slice(&[0x22; 32]);
    expected.extend_from_slice(&[0xAA, 0xBB, 0xCC]);
    assert_eq!(bytes, expected);
    assert_eq!(pack(&Vec::new(), &[]), vec![0u8; 8]);
}

#[test]
fn unpack_gives_back_what_was_packed() {
    let claims = vec![(key(1), filled(0x11)), (key(2), filled(0x22))];
    let proof = vec![0x4Cu8, 0x4F, 0x00];
    assert_eq!(unpack(&pack(&claims, &proof)), Ok((claims, proof)));
    assert_eq!(unpack(&pack(&Vec::new(), &[])), Ok((Vec::new(), Vec::new())));
    assert_eq!(unpack(&pack(&Vec::new(), &[7])), Ok((Vec::new(), vec![7])));
}

#[test]
fn unpack_refuses_short_input() {
    assert_eq!(unpack(&[]), Err(Error::MalformedProof));
    assert_eq!(unpack(&[1, 0, 0, 0, 0, 0, 0]), Err(Error::MalformedProof));
    // one claim announced, 63 bytes there
    let mut bytes = vec![1u8, 0, 0, 0, 0, 0, 0, 0];
    bytes.extend_from_slice(&[0u8; 63]);
    assert_eq!(unpack(&bytes), Err(Error::MalformedProof));
    bytes.push(0);
    assert_eq!(unpack(&bytes), Ok((vec![(H256::zero(), H256::zero())], Vec::new())));
    // a count beyond all memory
    assert_eq!(unpack(&[0xFF; 80]), Err(Error::MalformedProof));
}

#[test]
fn packed_proof_verifies() {
    let tree = sample_tree();
    let root = *tree.root();
    let (claims, proof) = tree.merkle_proof_all(&vec![key(2), key(5), filled(0xF0)]).unwrap();
    let bytes = pack(&claims, &proof);
    assert_eq!(verify_packed::<MixHasher>(&root, &bytes), Ok(()));
    assert_eq!(verify_packed::<MixHasher>(&filled(1), &bytes), Err(Error::RootMismatch));
    assert_eq!(
        verify_packed::<MixHasher>(&root, &bytes[..bytes.len() - 1]),
        Err(Error::MalformedProof)
    );
    assert_eq!(verify_packed::<MixHasher>(&root, &bytes[..7]), Err(Error::MalformedProof));
    // a changed value among the claims
    let mut bad = bytes.clone();
    bad[8 + 32] ^= 1;
    assert_eq!(verify_packed::<MixHasher>(&root, &bad), Err(Error::RootMismatch));
    // a changed count
    let mut bad = bytes.clone();
    bad[0] = 2;
    assert_eq!(verify_packed::<MixHasher>(&root, &bad), Err(Error::MalformedProof));
}

#[test]
fn memory_store_never_fails() {
    let mut tree = sample_tree();
    for i in 0..20u8 {
        assert!(tree.update(key(i), filled(i)).is_ok());
        assert!(tree.get(&key(i)).is_ok());
        assert!(tree.merkle_proof(key(i)).is_ok());
    }
}

#[test]
fn packed_empty_proof_is_the_empty_tree() {
    let bytes = pack(&Vec::new(), &[]);
    assert_eq!(verify_packed::<MixHasher>(&H256::zero(), &bytes), Ok(()));
    assert_eq!(verify_packed::<MixHasher>(&filled(1), &bytes), Err(Error::RootMismatch));
    let tree = Tree::new(H256::zero(), MemoryStore::new());
    let (claims, proof) = tree.merkle_proof_all(&Vec::new()).unwrap();
    assert_eq!(verify_packed::<MixHasher>(tree.root(), &pack(&claims, &proof)), Ok(()));
}

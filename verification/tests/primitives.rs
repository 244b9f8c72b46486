use sparse_merkle_tree::error::{
    Error, INVALID_KEY_OR_VALUE, MALFORMED_PROOF, ROOT_MISMATCH, STORE_ERROR,
};
use sparse_merkle_tree::h256::H256;
use sparse_merkle_tree::merge::merge;
use sparse_merkle_tree::traits::Hasher;

/// A hasher that shows what it was fed: the digest holds the number of bytes
/// written and the first byte of each of the four parts of a branch node.
struct TraceHasher {
    seen: Vec<u8>,
}

impl Hasher for TraceHasher {
    fn written(&self) -> vstd::seq::Seq<u8> {
        unreachable!()
    }

    fn digest(_bytes: vstd::seq::Seq<u8>) -> H256 {
        unreachable!()
    }

    fn new() -> Self {
        TraceHasher { seen: Vec::new() }
    }

    fn write_h256(&mut self, h: &H256) {
        self.seen.extend_from_slice(&h.bytes);
    }

    fn write_byte(&mut self, b: u8) {
        self.seen.push(b);
    }

    fn finish(self) -> H256 {
        let mut bytes = [0u8; 32];
        bytes[0] = self.seen.len() as u8;
        for (i, at) in [0usize, 1, 33, 65].iter().enumerate() {
            bytes[1 + i] = self.seen[*at];
        }
        bytes[5] = self.seen[96];
        H256 { bytes }
    }
}

fn key(last: u8) -> H256 {
    let mut bytes = [0u8; 32];
    bytes[31] = last;
    H256 { bytes }
}

#[test]
fn merge_feeds_height_key_left_right() {
    let mut right = [0xC0u8; 32];
    right[31] = 0xC9;
    let node = merge::<TraceHasher>(
        7,
        &H256 { bytes: [0xA0; 32] },
        &H256 { bytes: [0xB0; 32] },
        &H256 { bytes: right },
    );
    let mut expected = [0u8; 32];
    expected[0] = 97;
    expected[1] = 7;
    expected[2] = 0xA0;
    expected[3] = 0xB0;
    expected[4] = 0xC0;
    expected[5] = 0xC9;
    assert_eq!(node.bytes, expected);
}

#[test]
fn merge_of_two_zeros_is_zero() {
    let node = merge::<TraceHasher>(7, &key(0x80), &H256::zero(), &H256::zero());
    assert_eq!(node, H256::zero());
    let half = merge::<TraceHasher>(7, &key(0x80), &H256::zero(), &key(1));
    assert_ne!(half, H256::zero());
}

#[test]
fn merge_tells_left_from_right() {
    let a = merge::<TraceHasher>(0, &key(0), &key(1), &key(2));
    let b = merge::<TraceHasher>(0, &key(0), &key(2), &key(1));
    assert_ne!(a, b);
}

#[test]
fn bits_are_those_of_the_big_endian_number() {
    assert!(key(1).get_bit(0));
    assert!(!key(1).get_bit(1));
    assert!(key(2).get_bit(1));
    assert!(key(0x80).get_bit(7));
    let mut top = [0u8; 32];
    top[0] = 0x80;
    let top = H256 { bytes: top };
    assert!(top.get_bit(255));
    assert!(!top.get_bit(254));
    let mut second = [0u8; 32];
    second[30] = 0x01;
    assert!(H256 { bytes: second }.get_bit(8));
}

#[test]
fn set_bit_sets_one_bit() {
    let mut h = H256::zero();
    h.set_bit(9);
    let mut expected = [0u8; 32];
    expected[30] = 0x02;
    assert_eq!(h.bytes, expected);
    h.set_bit(9);
    assert_eq!(h.bytes, expected);
    h.set_bit(255);
    expected[0] = 0x80;
    assert_eq!(h.bytes, expected);
}

#[test]
fn parent_path_clears_the_low_bits() {
    assert_eq!(key(3).parent_path(0), key(2));
    assert_eq!(key(3).parent_path(1), key(0));
    assert_eq!(key(0xFF).parent_path(3), key(0xF0));
    assert_eq!(H256 { bytes: [0xFF; 32] }.parent_path(255), H256::zero());
    let mut bytes = [0u8; 32];
    bytes[30] = 0xAB;
    bytes[31] = 0xCD;
    let mut expected = [0u8; 32];
    expected[30] = 0xAB;
    assert_eq!(H256 { bytes }.copy_bits(8), H256 { bytes: expected });
    assert_eq!(H256 { bytes }.copy_bits(0), H256 { bytes });
    expected[30] = 0xA8;
    assert_eq!(H256 { bytes }.copy_bits(11), H256 { bytes: expected });
}

#[test]
fn order_is_that_of_the_bytes() {
    assert!(key(1).is_before(&key(2)));
    assert!(!key(2).is_before(&key(1)));
    assert!(!key(2).is_before(&key(2)));
    let mut high = [0u8; 32];
    high[0] = 1;
    assert!(key(0xFF).is_before(&H256 { bytes: high }));
    assert!(key(1) < key(2));
    assert!(key(0xFF) < H256 { bytes: high });
}

#[test]
fn zero_and_equality() {
    assert!(H256::zero().is_zero());
    assert!(!key(1).is_zero());
    assert!(key(1).is_same(&key(1)));
    assert!(!key(1).is_same(&key(2)));
    assert_eq!(H256::zero().bytes, [0u8; 32]);
}

#[test]
fn from_bytes_and_slices() {
    let bytes = [7u8; 32];
    assert_eq!(H256::from(bytes), H256 { bytes });
    assert_eq!(H256::from(bytes).as_slice(), &bytes[..]);
    assert_eq!(H256::from_slice(&bytes), Ok(H256 { bytes }));
    assert_eq!(H256::from_slice(&bytes[..31]), Err(Error::InvalidKeyOrValue));
    assert_eq!(H256::from_slice(&[0u8; 33]), Err(Error::InvalidKeyOrValue));
    assert_eq!(H256::from_slice(&[]), Err(Error::InvalidKeyOrValue));
}

#[test]
fn each_kind_of_error_has_its_code() {
    assert_eq!(Error::Store(String::from("x")).code(), STORE_ERROR);
    assert_eq!(Error::MalformedProof.code(), MALFORMED_PROOF);
    assert_eq!(Error::RootMismatch.code(), ROOT_MISMATCH);
    assert_eq!(Error::InvalidKeyOrValue.code(), INVALID_KEY_OR_VALUE);
    assert_ne!(MALFORMED_PROOF, ROOT_MISMATCH);
    assert_ne!(STORE_ERROR, INVALID_KEY_OR_VALUE);
}

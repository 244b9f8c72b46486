//! The 256-bit value that serves as key, as leaf value and as node hash.
//!
//! A key is read as a 256-bit big-endian number: byte 0 is the most significant
//! byte, and bit `i` of the key is bit `i` of that number. At height `h` the tree
//! descends to the right exactly when bit `h` of the key is set, so the order of
//! the leaves from left to right is the lexicographic order of the bytes.

use crate::error::Error;
use vstd::prelude::*;

verus! {

/// A 256-bit value.
#[derive(Clone, Copy, Debug, PartialEq, Eq, PartialOrd, Ord, Hash)]
pub struct H256 {
    pub bytes: [u8; 32],
}

impl View for H256 {
    type V = Seq<u8>;

    open spec fn view(&self) -> Seq<u8> {
        self.bytes@
    }
}

/// Bit `n` of a byte, for `n` below 8.
pub open spec fn byte_bit(b: u8, n: u8) -> bool {
    (b >> n) & 1u8 == 1u8
}

/// The byte `b` with its `d` lowest bits cleared.
pub open spec fn byte_clear_low(b: u8, d: int) -> u8 {
    if d <= 0 {
        b
    } else if d >= 8 {
        0u8
    } else {
        (b >> (d as u8)) << (d as u8)
    }
}

/// Whether `j` is the first place at which two sequences of 32 bytes differ.
pub open spec fn differ_at(a: Seq<u8>, b: Seq<u8>, j: int) -> bool {
    0 <= j < 32 && a.take(j) == b.take(j) && a[j] != b[j]
}

proof fn lemma_differ_at_unique(a: Seq<u8>, b: Seq<u8>, j: int, k: int)
    requires
        a.len() == 32,
        b.len() == 32,
        differ_at(a, b, j),
        differ_at(a, b, k),
    ensures
        j == k,
{
    if k < j {
        assert(a.take(j)[k] == a[k]);
        assert(b.take(j)[k] == b[k]);
    } else if j < k {
        assert(a.take(k)[j] == a[j]);
        assert(b.take(k)[j] == b[j]);
    }
}

/// The byte `b` with bit `n` set.
pub open spec fn byte_set(b: u8, n: u8) -> u8 {
    b | (1u8 << n)
}

proof fn lemma_byte_ext(x: u8, y: u8)
    by (bit_vector)
    requires
        (x >> 0u8) & 1u8 == (y >> 0u8) & 1u8,
        (x >> 1u8) & 1u8 == (y >> 1u8) & 1u8,
        (x >> 2u8) & 1u8 == (y >> 2u8) & 1u8,
        (x >> 3u8) & 1u8 == (y >> 3u8) & 1u8,
        (x >> 4u8) & 1u8 == (y >> 4u8) & 1u8,
        (x >> 5u8) & 1u8 == (y >> 5u8) & 1u8,
        (x >> 6u8) & 1u8 == (y >> 6u8) & 1u8,
        (x >> 7u8) & 1u8 == (y >> 7u8) & 1u8,
    ensures
        x == y,
{
}

/// Two bytes that agree on each of their eight bits are equal.
proof fn lemma_byte_same_bits(x: u8, y: u8)
    requires
        forall|n: u8| n < 8 ==> (x >> n) & 1u8 == (y >> n) & 1u8,
    ensures
        x == y,
{
    assert((x >> 0u8) & 1u8 == (y >> 0u8) & 1u8);
    assert((x >> 1u8) & 1u8 == (y >> 1u8) & 1u8);
    assert((x >> 2u8) & 1u8 == (y >> 2u8) & 1u8);
    assert((x >> 3u8) & 1u8 == (y >> 3u8) & 1u8);
    assert((x >> 4u8) & 1u8 == (y >> 4u8) & 1u8);
    assert((x >> 5u8) & 1u8 == (y >> 5u8) & 1u8);
    assert((x >> 6u8) & 1u8 == (y >> 6u8) & 1u8);
    assert((x >> 7u8) & 1u8 == (y >> 7u8) & 1u8);
    lemma_byte_ext(x, y);
}

proof fn lemma_byte_bit_is_0_or_1(x: u8, n: u8)
    by (bit_vector)
    requires
        n < 8,
    ensures
        (x >> n) & 1u8 == 0u8 || (x >> n) & 1u8 == 1u8,
{
}

proof fn lemma_byte_zero_bit(n: u8)
    by (bit_vector)
    requires
        n < 8,
    ensures
        (0u8 >> n) & 1u8 == 0u8,
{
}

proof fn lemma_byte_clear_low_bit(b: u8, d: u8, n: u8)
    by (bit_vector)
    requires
        d < 8,
        n < 8,
    ensures
        ((((b >> d) << d) >> n) & 1u8 == 1u8) <==> (n >= d && (b >> n) & 1u8 == 1u8),
{
}

proof fn lemma_byte_set_bit(b: u8, m: u8, n: u8)
    by (bit_vector)
    requires
        m < 8,
        n < 8,
    ensures
        (((b | (1u8 << m)) >> n) & 1u8 == 1u8) <==> (n == m || (b >> n) & 1u8 == 1u8),
{
}

proof fn lemma_byte_greater(x: u8, y: u8, n: u8)
    by (bit_vector)
    requires
        n < 8,
        (x >> n) & 1u8 == 1u8,
        (y >> n) & 1u8 != 1u8,
        n < 1 ==> (x >> 1u8) & 1u8 == (y >> 1u8) & 1u8,
        n < 2 ==> (x >> 2u8) & 1u8 == (y >> 2u8) & 1u8,
        n < 3 ==> (x >> 3u8) & 1u8 == (y >> 3u8) & 1u8,
        n < 4 ==> (x >> 4u8) & 1u8 == (y >> 4u8) & 1u8,
        n < 5 ==> (x >> 5u8) & 1u8 == (y >> 5u8) & 1u8,
        n < 6 ==> (x >> 6u8) & 1u8 == (y >> 6u8) & 1u8,
        n < 7 ==> (x >> 7u8) & 1u8 == (y >> 7u8) & 1u8,
    ensures
        x > y,
{
}

spec fn array_upto(s: Seq<u8>, n: nat) -> [u8; 32]
    decreases n,
{
    if n == 0 {
        vstd::array::spec_array_fill_for_copy_type::<u8, 32>(0u8)
    } else {
        vstd::array::spec_array_update(array_upto(s, (n - 1) as nat), n - 1, s[n - 1])
    }
}

proof fn lemma_array_upto(s: Seq<u8>, n: nat)
    requires
        n <= 32,
    ensures
        forall|i: int| 0 <= i < n ==> array_upto(s, n)@[i] == s[i],
    decreases n,
{
    broadcast use vstd::array::group_array_axioms;

    if n > 0 {
        lemma_array_upto(s, (n - 1) as nat);
    }
}

impl H256 {
    /// The value whose bytes are those of `s`, a sequence of 32 bytes.
    pub closed spec fn from_seq(s: Seq<u8>) -> H256 {
        H256 { bytes: choose|a: [u8; 32]| a@ == s }
    }

    /// `from_seq` inverts the view.
    pub broadcast proof fn lemma_from_seq(s: Seq<u8>)
        requires
            s.len() == 32,
        ensures
            (#[trigger] H256::from_seq(s))@ == s,
    {
        broadcast use vstd::array::group_array_axioms;

        lemma_array_upto(s, 32);
        assert(array_upto(s, 32)@ =~= s);
    }

    /// `from_seq` gives a value back from its bytes.
    pub proof fn lemma_from_seq_view(h: H256)
        ensures
            H256::from_seq(h@) == h,
    {
        broadcast use vstd::array::group_array_axioms;

        H256::lemma_from_seq(h@);
        Self::lemma_view_injective(H256::from_seq(h@), h);
    }

    /// Two values with the same bytes are the same value.
    pub proof fn lemma_view_injective(a: H256, b: H256)
        requires
            a@ == b@,
        ensures
            a == b,
    {
        broadcast use vstd::array::group_array_axioms;

        assert(a.bytes =~= b.bytes);
    }

    /// The value with every bit clear.
    pub open spec fn zero_spec() -> H256 {
        H256::from_seq(Seq::new(32, |j: int| 0u8))
    }

    /// Bit `i` of the value, for `0 <= i < 256`.
    pub open spec fn bit(self, i: int) -> bool {
        byte_bit(self@[31 - i / 8], (i % 8) as u8)
    }

    /// The value with the bits below `h` cleared: the key of the node at height
    /// `h` above this key.
    pub open spec fn prefix(self, h: int) -> H256 {
        H256::from_seq(Seq::new(32, |j: int| byte_clear_low(self@[j], h - 8 * (31 - j))))
    }

    /// The value with bit `i` set.
    pub open spec fn with_bit(self, i: int) -> H256 {
        H256::from_seq(self@.update(31 - i / 8, byte_set(self@[31 - i / 8], (i % 8) as u8)))
    }

    /// Lexicographic order of the bytes, strict.
    pub open spec fn lt_spec(self, other: H256) -> bool {
        exists|j: int| differ_at(self@, other@, j) && self@[j] < other@[j]
    }

    /// Two values that agree on every bit are equal.
    pub proof fn lemma_bits_ext(a: H256, b: H256)
        requires
            forall|i: int| 0 <= i < 256 ==> a.bit(i) == b.bit(i),
        ensures
            a == b,
    {
        broadcast use vstd::array::group_array_axioms;

        assert forall|j: int| 0 <= j < 32 implies a@[j] == b@[j] by {
            let x = a@[j];
            let y = b@[j];
            let base = 8 * (31 - j);
            assert forall|n: u8| n < 8 implies (x >> n) & 1u8 == (y >> n) & 1u8 by {
                let i = base + n;
                assert(i / 8 == 31 - j && i % 8 == n);
                assert(a.bit(i) == b.bit(i));
                lemma_byte_bit_is_0_or_1(x, n);
                lemma_byte_bit_is_0_or_1(y, n);
            }
            lemma_byte_same_bits(x, y);
        }
        assert(a@ =~= b@);
        Self::lemma_view_injective(a, b);
    }

    /// No bit of the zero value is set.
    pub broadcast proof fn lemma_zero_bit(i: int)
        requires
            0 <= i < 256,
        ensures
            !(#[trigger] H256::zero_spec().bit(i)),
    {
        H256::lemma_from_seq(Seq::new(32, |j: int| 0u8));
        lemma_byte_zero_bit((i % 8) as u8);
    }

    /// The bits of a prefix: those of the value at and above `h`, none below.
    pub broadcast proof fn lemma_prefix_bit(self, h: int, i: int)
        requires
            0 <= h <= 256,
            0 <= i < 256,
        ensures
            #[trigger] self.prefix(h).bit(i) == (i >= h && self.bit(i)),
    {
        broadcast use vstd::array::group_array_axioms;

        let j = 31 - i / 8;
        let n = (i % 8) as u8;
        let d = h - 8 * (31 - j);
        let b = self@[j];
        H256::lemma_from_seq(Seq::new(32, |j: int| byte_clear_low(self@[j], h - 8 * (31 - j))));
        assert(self.prefix(h)@[j] == byte_clear_low(b, d));
        if d <= 0 {
        } else if d >= 8 {
            lemma_byte_zero_bit(n);
        } else {
            lemma_byte_clear_low_bit(b, d as u8, n);
        }
    }

    /// The bits of `with_bit(m)`: bit `m`, and those of the value.
    pub broadcast proof fn lemma_with_bit_bit(self, m: int, i: int)
        requires
            0 <= m < 256,
            0 <= i < 256,
        ensures
            #[trigger] self.with_bit(m).bit(i) == (i == m || self.bit(i)),
    {
        broadcast use vstd::array::group_array_axioms;

        let jm = 31 - m / 8;
        let j = 31 - i / 8;
        let n = (i % 8) as u8;
        H256::lemma_from_seq(self@.update(jm, byte_set(self@[jm], (m % 8) as u8)));
        if j == jm {
            lemma_byte_set_bit(self@[jm], (m % 8) as u8, n);
        }
    }

    /// The zero value.
    pub fn zero() -> (r: H256)
        ensures
            r == H256::zero_spec(),
    {
        let r = H256 { bytes: [0u8; 32] };
        proof {
            broadcast use vstd::array::group_array_axioms;

            H256::lemma_from_seq(Seq::new(32, |j: int| 0u8));
            assert(r@ =~= H256::zero_spec()@);
            Self::lemma_view_injective(r, H256::zero_spec());
        }
        r
    }

    /// Whether this is the zero value.
    pub fn is_zero(&self) -> (r: bool)
        ensures
            r == (*self == H256::zero_spec()),
    {
        let z = H256::zero();
        self.is_same(&z)
    }

    /// Whether the two values are equal.
    pub fn is_same(&self, other: &H256) -> (r: bool)
        ensures
            r == (*self == *other),
    {
        let mut j: usize = 0;
        while j < 32
            invariant
                0 <= j <= 32,
                self@.take(j as int) == other@.take(j as int),
            decreases 32 - j,
        {
            if self.bytes[j] != other.bytes[j] {
                return false;
            }
            proof {
                assert(self@.take(j + 1) =~= self@.take(j as int).push(self@[j as int]));
                assert(other@.take(j + 1) =~= other@.take(j as int).push(other@[j as int]));
            }
            j += 1;
        }
        proof {
            assert(self@ =~= self@.take(32));
            assert(other@ =~= other@.take(32));
            Self::lemma_view_injective(*self, *other);
        }
        true
    }

    /// Whether this value comes before `other` in the order of the bytes.
    pub fn is_before(&self, other: &H256) -> (r: bool)
        ensures
            r == self.lt_spec(*other),
    {
        let mut j: usize = 0;
        while j < 32
            invariant
                0 <= j <= 32,
                self@.take(j as int) == other@.take(j as int),
            decreases 32 - j,
        {
            if self.bytes[j] < other.bytes[j] {
                proof {
                    Self::lemma_lt_first_difference(*self, *other, j as int);
                }
                return true;
            }
            if self.bytes[j] > other.bytes[j] {
                proof {
                    Self::lemma_lt_first_difference(*self, *other, j as int);
                }
                return false;
            }
            proof {
                assert(self@.take(j + 1) =~= self@.take(j as int).push(self@[j as int]));
                assert(other@.take(j + 1) =~= other@.take(j as int).push(other@[j as int]));
            }
            j += 1;
        }
        proof {
            assert(self@ =~= self@.take(32));
            assert(other@ =~= other@.take(32));
            Self::lemma_view_injective(*self, *other);
            Self::lemma_lt_irreflexive(*self);
        }
        false
    }

    /// Bit `i` of the value.
    pub fn get_bit(&self, i: u8) -> (r: bool)
        ensures
            r == self.bit(i as int),
    {
        let byte_pos: usize = 31 - (i / 8) as usize;
        let bit_pos: u8 = i % 8;
        let b: u8 = self.bytes[byte_pos];
        (b >> bit_pos) & 1u8 == 1u8
    }

    /// Sets bit `i` of the value.
    pub fn set_bit(&mut self, i: u8)
        ensures
            *final(self) == old(self).with_bit(i as int),
    {
        let byte_pos: usize = 31 - (i / 8) as usize;
        let bit_pos: u8 = i % 8;
        let b: u8 = self.bytes[byte_pos];
        self.bytes[byte_pos] = b | (1u8 << bit_pos);
        proof {
            broadcast use vstd::array::group_array_axioms;

            let target = old(self)@.update(byte_pos as int, byte_set(b, bit_pos));
            H256::lemma_from_seq(target);
            assert(self@ =~= target);
            Self::lemma_view_injective(*self, old(self).with_bit(i as int));
        }
    }

    /// The key of the node at height `start` above this key: the bits from
    /// `start` upwards are kept, those below are cleared.
    pub fn copy_bits(&self, start: u8) -> (r: H256)
        ensures
            r == self.prefix(start as int),
    {
        self.clear_below(start as u16)
    }

    /// The key of the parent of the node that holds this key at `height`: the
    /// bits up to and including `height` are cleared.
    pub fn parent_path(&self, height: u8) -> (r: H256)
        ensures
            r == self.prefix(height as int + 1),
    {
        self.clear_below(height as u16 + 1)
    }

    fn clear_below(&self, h: u16) -> (r: H256)
        requires
            h <= 256,
        ensures
            r == self.prefix(h as int),
    {
        let mut out: [u8; 32] = [0u8; 32];
        let mut j: usize = 0;
        while j < 32
            invariant
                0 <= j <= 32,
                h <= 256,
                forall|i: int| 0 <= i < j ==> out@[i] == byte_clear_low(self@[i], h - 8 * (31 - i)),
                forall|i: int| j <= i < 32 ==> out@[i] == 0u8,
            decreases 32 - j,
        {
            let lo: u16 = 8 * (31 - j as u16);
            let b: u8 = self.bytes[j];
            if h <= lo {
                out[j] = b;
            } else if h < lo + 8 {
                let d: u8 = (h - lo) as u8;
                out[j] = (b >> d) << d;
            }
            j += 1;
        }
        let r = H256 { bytes: out };
        proof {
            broadcast use vstd::array::group_array_axioms;

            let target = Seq::new(32, |j: int| byte_clear_low(self@[j], h - 8 * (31 - j)));
            H256::lemma_from_seq(target);
            assert(r@ =~= target);
            Self::lemma_view_injective(r, self.prefix(h as int));
        }
        r
    }

    /// The bytes of the value, most significant first.
    pub fn as_slice(&self) -> (r: &[u8])
        ensures
            r@ == self@,
    {
        self.bytes.as_slice()
    }

    /// The value with the given 32 bytes; any other length is refused as an
    /// invalid key or value.
    pub fn from_slice(bytes: &[u8]) -> (r: Result<H256, Error>)
        ensures
            bytes@.len() == 32 ==> r == Ok::<H256, Error>(H256::from_seq(bytes@)),
            bytes@.len() != 32 ==> r == Err::<H256, Error>(Error::InvalidKeyOrValue),
    {
        if bytes.len() != 32 {
            return Err(Error::InvalidKeyOrValue);
        }
        let mut out: [u8; 32] = [0u8; 32];
        let mut j: usize = 0;
        while j < 32
            invariant
                0 <= j <= 32,
                bytes@.len() == 32,
                forall|i: int| 0 <= i < j ==> out@[i] == bytes@[i],
            decreases 32 - j,
        {
            out[j] = bytes[j];
            j += 1;
        }
        let r = H256 { bytes: out };
        proof {
            broadcast use vstd::array::group_array_axioms;

            H256::lemma_from_seq(bytes@);
            assert(r@ =~= bytes@);
            Self::lemma_view_injective(r, H256::from_seq(bytes@));
        }
        Ok(r)
    }

    /// Where two values first differ, the bytes there decide the order.
    pub proof fn lemma_lt_first_difference(a: H256, b: H256, j: int)
        requires
            0 <= j < 32,
            a@.take(j) == b@.take(j),
            a@[j] != b@[j],
        ensures
            a.lt_spec(b) == (a@[j] < b@[j]),
            b.lt_spec(a) == (b@[j] < a@[j]),
    {
        broadcast use vstd::array::group_array_axioms;

        assert(differ_at(a@, b@, j) && differ_at(b@, a@, j));
        if a.lt_spec(b) {
            let k = choose|k: int| differ_at(a@, b@, k) && a@[k] < b@[k];
            lemma_differ_at_unique(a@, b@, j, k);
        }
        if b.lt_spec(a) {
            let k = choose|k: int| differ_at(b@, a@, k) && b@[k] < a@[k];
            lemma_differ_at_unique(b@, a@, j, k);
        }
    }

    /// No value comes before itself.
    pub proof fn lemma_lt_irreflexive(a: H256)
        ensures
            !a.lt_spec(a),
    {
    }

    /// Of two different values one comes before the other.
    pub proof fn lemma_lt_total(a: H256, b: H256)
        ensures
            a == b || a.lt_spec(b) || b.lt_spec(a),
            !(a.lt_spec(b) && b.lt_spec(a)),
    {
        broadcast use vstd::array::group_array_axioms;

        if a != b {
            assert(a@.take(0) =~= b@.take(0));
            let j = Self::first_difference(a, b, 0);
            Self::lemma_lt_first_difference(a, b, j);
        } else {
        }
        if a.lt_spec(b) {
            let j = choose|j: int| differ_at(a@, b@, j) && a@[j] < b@[j];
            Self::lemma_lt_first_difference(a, b, j);
        }
    }

    proof fn first_difference(a: H256, b: H256, from: int) -> (j: int)
        requires
            a != b,
            0 <= from <= 32,
            a@.take(from) == b@.take(from),
        ensures
            0 <= j < 32,
            a@.take(j) == b@.take(j),
            a@[j] != b@[j],
        decreases 32 - from,
    {
        broadcast use vstd::array::group_array_axioms;

        if from == 32 {
            assert(a@ =~= a@.take(32));
            assert(b@ =~= b@.take(32));
            Self::lemma_view_injective(a, b);
            0
        } else if a@[from] != b@[from] {
            from
        } else {
            assert(a@.take(from + 1) =~= a@.take(from).push(a@[from]));
            assert(b@.take(from + 1) =~= b@.take(from).push(b@[from]));
            Self::first_difference(a, b, from + 1)
        }
    }

    /// The order is transitive.
    pub proof fn lemma_lt_transitive(a: H256, b: H256, c: H256)
        requires
            a.lt_spec(b),
            b.lt_spec(c),
        ensures
            a.lt_spec(c),
    {
        broadcast use vstd::array::group_array_axioms;

        let j = choose|j: int| differ_at(a@, b@, j) && a@[j] < b@[j];
        let k = choose|k: int| differ_at(b@, c@, k) && b@[k] < c@[k];
        let m = if j <= k { j } else { k };
        assert(a@.take(m) =~= c@.take(m)) by {
            assert forall|i: int| 0 <= i < m implies a@[i] == c@[i] by {
                assert(a@.take(j)[i] == b@.take(j)[i]);
                assert(b@.take(k)[i] == c@.take(k)[i]);
            }
        }
        if j < k {
            assert(b@.take(k)[j] == c@.take(k)[j]);
        } else if k < j {
            assert(a@.take(j)[k] == b@.take(j)[k]);
        }
        assert(differ_at(a@, c@, m) && a@[m] < c@[m]);
    }

    /// Two values that agree on all bits from `from` on have the same bit `i`,
    /// for `i` at or above `from`.
    proof fn lemma_same_bit(a: H256, b: H256, from: int, i: int)
        requires
            0 <= from <= i < 256,
            a.prefix(from) == b.prefix(from),
        ensures
            a.bit(i) == b.bit(i),
    {
        a.lemma_prefix_bit(from, i);
        b.lemma_prefix_bit(from, i);
    }

    /// Of two values that agree on all bits from `h` on, the one with bit
    /// `h - 1` clear comes first: the order of the bytes is the order of the
    /// leaves from left to right.
    pub proof fn lemma_order_by_bit(a: H256, b: H256, h: int)
        requires
            1 <= h <= 256,
            a.prefix(h) == b.prefix(h),
            a.bit(h - 1),
            !b.bit(h - 1),
        ensures
            b.lt_spec(a),
            !a.lt_spec(b),
    {
        broadcast use vstd::array::group_array_axioms;

        let jb = 31 - (h - 1) / 8;
        let n = ((h - 1) % 8) as u8;
        assert forall|j: int| 0 <= j < jb implies a@[j] == b@[j] by {
            let x = a@[j];
            let y = b@[j];
            let base = 8 * (31 - j);
            assert forall|t: u8| t < 8 implies (x >> t) & 1u8 == (y >> t) & 1u8 by {
                let i = base + t;
                assert(i / 8 == 31 - j && i % 8 == t);
                Self::lemma_same_bit(a, b, h, i);
                lemma_byte_bit_is_0_or_1(x, t);
                lemma_byte_bit_is_0_or_1(y, t);
            }
            lemma_byte_same_bits(x, y);
        }
        assert(a@.take(jb) =~= b@.take(jb));
        let x = a@[jb];
        let y = b@[jb];
        let base = 8 * (31 - jb);
        assert forall|t: u8| n < t < 8 implies (x >> t) & 1u8 == (y >> t) & 1u8 by {
            let i = base + t;
            assert(i / 8 == 31 - jb && i % 8 == t);
            Self::lemma_same_bit(a, b, h, i);
            lemma_byte_bit_is_0_or_1(x, t);
            lemma_byte_bit_is_0_or_1(y, t);
        }
        assert(n < 1 ==> (x >> 1u8) & 1u8 == (y >> 1u8) & 1u8);
        assert(n < 2 ==> (x >> 2u8) & 1u8 == (y >> 2u8) & 1u8);
        assert(n < 3 ==> (x >> 3u8) & 1u8 == (y >> 3u8) & 1u8);
        assert(n < 4 ==> (x >> 4u8) & 1u8 == (y >> 4u8) & 1u8);
        assert(n < 5 ==> (x >> 5u8) & 1u8 == (y >> 5u8) & 1u8);
        assert(n < 6 ==> (x >> 6u8) & 1u8 == (y >> 6u8) & 1u8);
        assert(n < 7 ==> (x >> 7u8) & 1u8 == (y >> 7u8) & 1u8);
        lemma_byte_greater(x, y, n);
        Self::lemma_lt_first_difference(a, b, jb);
    }
}

impl From<[u8; 32]> for H256 {
    fn from(bytes: [u8; 32]) -> (r: H256) {
        H256 { bytes }
    }
}

impl vstd::std_specs::convert::FromSpecImpl<[u8; 32]> for H256 {
    open spec fn obeys_from_spec() -> bool {
        true
    }

    open spec fn from_spec(bytes: [u8; 32]) -> H256 {
        H256 { bytes }
    }
}

} // verus!

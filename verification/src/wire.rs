//! The form in which claims and their proof travel together: a flat sequence
//! of bytes that holds
//!
//! - the number of claimed leaves, in 8 bytes, least significant first;
//! - for each claimed leaf its key and its value, 32 bytes each;
//! - the proof, which takes up the rest.

use crate::error::Error;
use crate::h256::H256;
use crate::merkle_proof::{compute_root, proof_root};
use crate::traits::Hasher;
use vstd::bytes::{
    lemma_auto_spec_u64_to_from_le_bytes, spec_u64_from_le_bytes, spec_u64_to_le_bytes,
    u64_from_le_bytes, u64_to_le_bytes,
};
use vstd::prelude::*;
use vstd::slice::slice_subrange;

verus! {

/// The bytes of the claimed leaves: key and value of each, one after the
/// other.
pub open spec fn claims_bytes(claims: Seq<(H256, H256)>) -> Seq<u8>
    decreases claims.len(),
{
    if claims.len() == 0 {
        Seq::empty()
    } else {
        claims_bytes(claims.drop_last()) + (claims.last().0@ + claims.last().1@)
    }
}

/// The bytes that hold the claims and the proof.
pub open spec fn packed(claims: Seq<(H256, H256)>, proof: Seq<u8>) -> Seq<u8> {
    spec_u64_to_le_bytes(claims.len() as u64) + claims_bytes(claims) + proof
}

/// The claimed leaf at index `i` in packed bytes.
pub open spec fn claim_at(bytes: Seq<u8>, i: int) -> (H256, H256) {
    (
        H256::from_seq(bytes.subrange(8 + 64 * i, 40 + 64 * i)),
        H256::from_seq(bytes.subrange(40 + 64 * i, 72 + 64 * i)),
    )
}

/// The claims and the proof that the bytes hold, or `None` where the bytes are
/// too few for the count or for the claims that the count announces.
pub open spec fn unpacked(bytes: Seq<u8>) -> Option<(Seq<(H256, H256)>, Seq<u8>)> {
    if bytes.len() < 8 {
        None
    } else {
        let n = spec_u64_from_le_bytes(bytes.subrange(0, 8)) as int;
        if (bytes.len() - 8) / 64 < n {
            None
        } else {
            Some((Seq::new(n as nat, |i: int| claim_at(bytes, i)), bytes.skip(8 + 64 * n)))
        }
    }
}

/// Each claimed leaf takes 64 bytes, and stands at its place.
pub proof fn lemma_claims_bytes(claims: Seq<(H256, H256)>)
    ensures
        claims_bytes(claims).len() == 64 * claims.len(),
        forall|i: int|
            0 <= i < claims.len() ==> claims_bytes(claims).subrange(64 * i, 64 * i + 32)
                == (#[trigger] claims[i]).0@ && claims_bytes(claims).subrange(
                64 * i + 32,
                64 * i + 64,
            ) == claims[i].1@,
    decreases claims.len(),
{
    broadcast use vstd::array::group_array_axioms;

    if claims.len() > 0 {
        let front = claims.drop_last();
        let last = claims.last();
        let all = claims_bytes(claims);
        lemma_claims_bytes(front);
        assert forall|i: int| 0 <= i < claims.len() implies all.subrange(64 * i, 64 * i + 32) == (
        #[trigger] claims[i]).0@ && all.subrange(64 * i + 32, 64 * i + 64) == claims[i].1@ by {
            if i < front.len() {
                assert(front[i] == claims[i]);
                assert(all.subrange(64 * i, 64 * i + 32) =~= claims_bytes(front).subrange(
                    64 * i,
                    64 * i + 32,
                ));
                assert(all.subrange(64 * i + 32, 64 * i + 64) =~= claims_bytes(front).subrange(
                    64 * i + 32,
                    64 * i + 64,
                ));
            } else {
                assert(all.subrange(64 * i, 64 * i + 32) =~= last.0@);
                assert(all.subrange(64 * i + 32, 64 * i + 64) =~= last.1@);
            }
        }
    }
}

/// What was packed comes out again as it went in.
pub proof fn lemma_unpack_packed(claims: Seq<(H256, H256)>, proof: Seq<u8>)
    requires
        claims.len() <= u64::MAX,
    ensures
        unpacked(packed(claims, proof)) == Some((claims, proof)),
{
    lemma_auto_spec_u64_to_from_le_bytes();
    lemma_claims_bytes(claims);
    let n = claims.len() as int;
    let count = spec_u64_to_le_bytes(claims.len() as u64);
    let body = claims_bytes(claims);
    let bytes = packed(claims, proof);
    assert(bytes.subrange(0, 8) =~= count);
    assert(bytes.skip(8 + 64 * n) =~= proof);
    let found = Seq::new(n as nat, |i: int| claim_at(bytes, i));
    assert forall|i: int| 0 <= i < n implies found[i] == claims[i] by {
        assert(bytes.subrange(8 + 64 * i, 40 + 64 * i) =~= body.subrange(64 * i, 64 * i + 32));
        assert(bytes.subrange(40 + 64 * i, 72 + 64 * i) =~= body.subrange(
            64 * i + 32,
            64 * i + 64,
        ));
        H256::lemma_from_seq_view(claims[i].0);
        H256::lemma_from_seq_view(claims[i].1);
    }
    assert(found =~= claims);
}

/// Packs the claims and the proof for them into one sequence of bytes.
pub fn pack(claims: &Vec<(H256, H256)>, proof: &[u8]) -> (r: Vec<u8>)
    ensures
        r@ == packed(claims@, proof@),
{
    let mut out = u64_to_le_bytes(claims.len() as u64);
    let mut i: usize = 0;
    while i < claims.len()
        invariant
            i <= claims.len(),
            out@ == spec_u64_to_le_bytes(claims@.len() as u64) + claims_bytes(
                claims@.take(i as int),
            ),
        decreases claims.len() - i,
    {
        let ghost before = out@;
        out.extend_from_slice(claims[i].0.as_slice());
        out.extend_from_slice(claims[i].1.as_slice());
        proof {
            assert(claims@.take(i + 1).drop_last() =~= claims@.take(i as int));
            assert(out@ =~= spec_u64_to_le_bytes(claims@.len() as u64) + claims_bytes(
                claims@.take(i + 1),
            ));
        }
        i += 1;
    }
    proof {
        assert(claims@.take(claims@.len() as int) =~= claims@);
    }
    out.extend_from_slice(proof);
    out
}

/// Takes packed bytes apart into the claims and the proof. Fails with
/// `MalformedProof` where the bytes are too few for the count or for the
/// claims that the count announces.
pub fn unpack(bytes: &[u8]) -> (r: Result<(Vec<(H256, H256)>, Vec<u8>), Error>)
    ensures
        match unpacked(bytes@) {
            Some(parts) => r matches Ok(found) && found.0@ == parts.0 && found.1@ == parts.1,
            None => r == Err::<(Vec<(H256, H256)>, Vec<u8>), Error>(Error::MalformedProof),
        },
{
    if bytes.len() < 8 {
        return Err(Error::MalformedProof);
    }
    let count = u64_from_le_bytes(slice_subrange(bytes, 0, 8));
    let room = (bytes.len() - 8) / 64;
    if (room as u64) < count {
        return Err(Error::MalformedProof);
    }
    let n: usize = count as usize;
    let total: usize = bytes.len();
    let mut claims: Vec<(H256, H256)> = Vec::new();
    let mut i: usize = 0;
    while i < n
        invariant
            i <= n,
            bytes@.len() == total,
            bytes@.len() >= 8,
            n <= (bytes@.len() - 8) / 64,
            claims@.len() == i,
            forall|j: int| 0 <= j < i ==> #[trigger] claims@[j] == claim_at(bytes@, j),
        decreases n - i,
    {
        assert(64 * i + 72 <= bytes@.len());
        let at: usize = 8 + 64 * i;
        let key = match H256::from_slice(slice_subrange(bytes, at, at + 32)) {
            Ok(key) => key,
            Err(e) => {
                return Err(Error::MalformedProof);
            },
        };
        let value = match H256::from_slice(slice_subrange(bytes, at + 32, at + 64)) {
            Ok(value) => value,
            Err(e) => {
                return Err(Error::MalformedProof);
            },
        };
        claims.push((key, value));
        i += 1;
    }
    let mut proof: Vec<u8> = Vec::new();
    proof.extend_from_slice(slice_subrange(bytes, 8 + 64 * n, total));
    proof {
        assert(claims@ =~= unpacked(bytes@).unwrap().0);
        assert(proof@ =~= unpacked(bytes@).unwrap().1);
    }
    Ok((claims, proof))
}

/// Checks that the proof in the packed bytes leads from the claims in them to
/// `root`.
///
/// Fails with `MalformedProof` where the bytes cannot be taken apart or the
/// proof is not well formed for the claims, and with `RootMismatch` where the
/// proof leads to another root.
pub fn verify_packed<H: Hasher>(root: &H256, bytes: &[u8]) -> (r: Result<(), Error>)
    ensures
        r == match unpacked(bytes@) {
            None => Err::<(), Error>(Error::MalformedProof),
            Some(parts) => match proof_root::<H>(parts.0, parts.1) {
                None => Err::<(), Error>(Error::MalformedProof),
                Some(found) => if found == *root {
                    Ok::<(), Error>(())
                } else {
                    Err::<(), Error>(Error::RootMismatch)
                },
            },
        },
{
    let (claims, proof) = match unpack(bytes) {
        Ok(parts) => parts,
        Err(e) => {
            return Err(Error::MalformedProof);
        },
    };
    match compute_root::<H>(&claims, proof.as_slice()) {
        Some(found) => if found.is_same(root) {
            Ok(())
        } else {
            Err(Error::RootMismatch)
        },
        None => Err(Error::MalformedProof),
    }
}

} // verus!

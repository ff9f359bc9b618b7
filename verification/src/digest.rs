//! The 32-byte hash that commits snapshots and derives challenges.

use vstd::prelude::*;
use crate::endian::{lemma_u64_of_le_round_trip, u64_from_le, u64_le, u64_to_le};
use crate::permutation::{Lanes, State};

verus! {

/// A 32-byte hash value.
pub type Digest = [u8; 32];

/// The FRACT-256 digest of a byte string, as the `fract` crate computes it.
pub uninterp spec fn fract_hash(data: Seq<u8>) -> [u8; 32];

/// Calls `fract::Fract::hash`, the one-shot FRACT-256 hash.
///
/// Trusted: the digest depends on the bytes of `data` alone, so it is the
/// value that `fract_hash` names for them. Nothing else is claimed of it.
#[verifier::external_body]
pub(crate) fn hash_bytes(data: &[u8]) -> (out: [u8; 32])
    ensures
        out == fract_hash(data@),
{
    fract::Fract::hash(data)
}

/// The canonical 32 bytes of a snapshot: its lanes in order, each little-endian.
pub open spec fn snapshot_bytes(s: Lanes) -> Seq<u8> {
    u64_le(s.0) + u64_le(s.1) + u64_le(s.2) + u64_le(s.3)
}

/// The Merkle leaf committing to a snapshot.
pub open spec fn leaf_hash(s: Lanes) -> Digest {
    fract_hash(snapshot_bytes(s))
}

/// The parent of two Merkle nodes: the hash of their 64-byte concatenation.
pub open spec fn node_hash(left: Digest, right: Digest) -> Digest {
    fract_hash(left@ + right@)
}

/// The all-zero digest that pads the leaf set.
pub open spec fn zero_digest() -> Digest {
    vstd::array::spec_array_fill_for_copy_type::<u8, 32>(0u8)
}

/// Every byte of the padding digest is zero.
pub proof fn lemma_zero_digest()
    ensures
        zero_digest()@ == Seq::new(32, |i: int| 0u8),
{
    assert(zero_digest()@ =~= Seq::new(32, |i: int| 0u8));
}

/// Whether two digests hold the same bytes.
pub fn digest_eq(a: &Digest, b: &Digest) -> (r: bool)
    ensures
        r == (*a == *b),
{
    let mut i: usize = 0;
    while i < 32
        invariant
            i <= 32,
            forall|k: int| 0 <= k < i ==> a[k] == b[k],
        decreases 32 - i,
    {
        if a[i] != b[i] {
            return false;
        }
        i = i + 1;
    }
    assert(*a =~= *b);
    true
}

/// The all-zero digest.
pub fn zero() -> (out: Digest)
    ensures
        out == zero_digest(),
        out@ == Seq::new(32, |i: int| 0u8),
{
    proof {
        lemma_zero_digest();
    }
    [0u8; 32]
}

impl State {
    /// The canonical bytes of the snapshot.
    pub fn to_bytes(&self) -> (out: [u8; 32])
        ensures
            out@ == snapshot_bytes(self@),
    {
        let mut out = [0u8; 32];
        let mut lane: usize = 0;
        while lane < 4
            invariant
                lane <= 4,
                forall|k: int|
                    0 <= k < 8 * lane ==> out[k] == #[trigger] u64_le(self.s[k / 8])[k % 8],
            decreases 4 - lane,
        {
            let word = u64_to_le(self.s[lane]);
            let mut j: usize = 0;
            while j < 8
                invariant
                    lane < 4,
                    j <= 8,
                    word@ == u64_le(self.s[lane as int]),
                    forall|k: int|
                        0 <= k < 8 * lane + j ==> out[k] == #[trigger] u64_le(self.s[k / 8])[k % 8],
                decreases 8 - j,
            {
                out[8 * lane + j] = word[j];
                j = j + 1;
            }
            lane = lane + 1;
        }
        proof {
            let t = snapshot_bytes(self@);
            assert(t.len() == 32);
            assert forall|k: int| 0 <= k < 32 implies out@[k] == t[k] by {
                assert(out[k] == u64_le(self.s[k / 8])[k % 8]);
                if k < 8 {
                    assert(k / 8 == 0 && k % 8 == k);
                } else if k < 16 {
                    assert(k / 8 == 1 && k % 8 == k - 8);
                } else if k < 24 {
                    assert(k / 8 == 2 && k % 8 == k - 16);
                } else {
                    assert(k / 8 == 3 && k % 8 == k - 24);
                }
            }
            assert(out@ =~= t);
        }
        out
    }

    /// The snapshot whose canonical bytes are `bytes[at..at + 32]`.
    pub fn from_bytes(bytes: &[u8], at: usize) -> (out: State)
        requires
            at + 32 <= bytes@.len(),
        ensures
            snapshot_bytes(out@) == bytes@.subrange(at as int, at + 32),
    {
        let len = bytes.len();
        assert(at + 32 <= len);
        let s0 = u64_from_le(bytes, at);
        let s1 = u64_from_le(bytes, at + 8);
        let s2 = u64_from_le(bytes, at + 16);
        let s3 = u64_from_le(bytes, at + 24);
        let out = State::new([s0, s1, s2, s3]);
        proof {
            let b = bytes@;
            lemma_u64_of_le_round_trip(b.subrange(at as int, at + 8));
            lemma_u64_of_le_round_trip(b.subrange(at + 8, at + 16));
            lemma_u64_of_le_round_trip(b.subrange(at + 16, at + 24));
            lemma_u64_of_le_round_trip(b.subrange(at + 24, at + 32));
            assert(snapshot_bytes(out@) =~= b.subrange(at as int, at + 32));
        }
        out
    }

    /// The Merkle leaf committing to the snapshot.
    pub fn leaf(&self) -> (out: Digest)
        ensures
            out == leaf_hash(self@),
    {
        let bytes = self.to_bytes();
        hash_bytes(bytes.as_slice())
    }
}

/// The digest stored at `bytes[at..at + 32]`.
pub fn digest_at(bytes: &[u8], at: usize) -> (out: Digest)
    requires
        at + 32 <= bytes@.len(),
    ensures
        out@ == bytes@.subrange(at as int, at + 32),
{
    let len = bytes.len();
    let mut out = [0u8; 32];
    let mut i: usize = 0;
    while i < 32
        invariant
            i <= 32,
            at + 32 <= len,
            len == bytes@.len(),
            forall|k: int| 0 <= k < i ==> out[k] == bytes@[at + k],
        decreases 32 - i,
    {
        out[i] = bytes[at + i];
        i = i + 1;
    }
    assert(out@ =~= bytes@.subrange(at as int, at + 32));
    out
}

/// The parent of two Merkle nodes.
pub fn combine(left: &Digest, right: &Digest) -> (out: Digest)
    ensures
        out == node_hash(*left, *right),
{
    let mut buf = [0u8; 64];
    let mut i: usize = 0;
    while i < 32
        invariant
            i <= 32,
            forall|k: int| 0 <= k < i ==> buf[k] == left[k],
            forall|k: int| 0 <= k < i ==> buf[32 + k] == right[k],
        decreases 32 - i,
    {
        buf[i] = left[i];
        buf[32 + i] = right[i];
        i = i + 1;
    }
    assert(buf@ =~= left@ + right@);
    hash_bytes(buf.as_slice())
}

} // verus!

//! Fiat-Shamir challenge derivation: which transitions of a trace are revealed.

use vstd::prelude::*;
use crate::digest::{fract_hash, hash_bytes, Digest};
use crate::endian::{u64_from_le, u64_of_le};

verus! {

/// Transitions applied in a trace.
pub const TRACE_LEN: usize = 16;

/// Transitions revealed in a proof.
pub const SLICES: usize = 4;

/// The seed of the challenge for a commitment: the hash of its root.
pub open spec fn challenge_seed(root: Digest) -> Digest {
    fract_hash(root@)
}

/// The `j`-th little-endian 64-bit word of a seed, `0 <= j < 4`.
pub open spec fn seed_word(seed: Digest, j: int) -> u64 {
    u64_of_le(seed@.subrange(8 * j, 8 * j + 8))
}

/// The four indices a seed selects below `limit`: each seed word reduced
/// modulo `limit`, in order, repetitions kept.
pub open spec fn seed_indices(seed: Digest, limit: int) -> Seq<int> {
    Seq::new(4, |j: int| seed_word(seed, j) as int % limit)
}

/// The four trace indices challenged for a commitment with the given root.
pub open spec fn challenge_indices(root: Digest) -> Seq<int> {
    seed_indices(challenge_seed(root), TRACE_LEN as int)
}

/// Every selected index lies below the limit.
pub proof fn lemma_seed_indices_bounded(seed: Digest, limit: int)
    requires
        limit > 0,
    ensures
        seed_indices(seed, limit).len() == 4,
        forall|j: int| 0 <= j < 4 ==> 0 <= #[trigger] seed_indices(seed, limit)[j] < limit,
{
}

/// The hash of a root, from which its challenge is derived.
pub fn seed_of(root: &Digest) -> (seed: Digest)
    ensures
        seed == challenge_seed(*root),
{
    hash_bytes(root.as_slice())
}

/// The `j`-th index below `limit` that a seed selects.
pub fn derive_index(hash: &[u8; 32], j: usize, limit: usize) -> (index: usize)
    requires
        j < 4,
        limit > 0,
    ensures
        index as int == seed_indices(*hash, limit as int)[j as int],
        index < limit,
{
    let word = u64_from_le(hash.as_slice(), 8 * j);
    let reduced = word % (limit as u64);
    reduced as usize
}

/// Picks four indices below `limit` from a seed.
pub fn derive_indices(hash: &[u8; 32], limit: usize) -> (indices: Vec<usize>)
    requires
        limit > 0,
    ensures
        indices@.len() == 4,
        indices@.map_values(|i: usize| i as int) == seed_indices(*hash, limit as int),
        forall|j: int| 0 <= j < 4 ==> #[trigger] indices@[j] < limit,
{
    let mut indices: Vec<usize> = Vec::new();
    let mut j: usize = 0;
    while j < 4
        invariant
            limit > 0,
            j <= 4,
            indices@.len() == j,
            forall|k: int|
                0 <= k < j ==> (#[trigger] indices@[k]) as int == seed_indices(*hash, limit as int)[k],
            forall|k: int| 0 <= k < j ==> #[trigger] indices@[k] < limit,
        decreases 4 - j,
    {
        let index = derive_index(hash, j, limit);
        indices.push(index);
        j = j + 1;
    }
    assert(indices@.map_values(|i: usize| i as int) =~= seed_indices(*hash, limit as int));
    indices
}

} // verus!

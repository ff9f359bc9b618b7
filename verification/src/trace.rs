//! The execution trace of the permutation and the leaves that commit to it.

use vstd::prelude::*;
use crate::challenge::TRACE_LEN;
use crate::digest::{leaf_hash, zero, zero_digest, Digest};
use crate::permutation::{phi_iter, Lanes, State};
use crate::sponge::seed_lanes;

verus! {

/// Leaves of the commitment tree: the trace's snapshots, padded to a power of two.
pub const MERKLE_LEAVES: usize = 32;

/// The trace from a seeded state: snapshot `i` is the seed after `i` rounds.
pub open spec fn trace_of(seed: Lanes) -> Seq<Lanes> {
    Seq::new((TRACE_LEN + 1) as nat, |i: int| phi_iter(seed, i as nat))
}

/// The leaves committing to a trace: the hash of each snapshot's canonical
/// bytes, then all-zero digests up to the leaf count.
pub open spec fn leaves_of(trace: Seq<Lanes>) -> Seq<Digest> {
    Seq::new(
        MERKLE_LEAVES as nat,
        |i: int|
            if i < trace.len() {
                leaf_hash(trace[i])
            } else {
                zero_digest()
            },
    )
}

/// The snapshots of a vector of states.
pub open spec fn lanes_of(states: Seq<State>) -> Seq<Lanes> {
    states.map_values(|s: State| s@)
}

/// Each snapshot of a trace but the first is the permutation of the one before.
pub proof fn lemma_trace_steps(seed: Lanes, i: int)
    requires
        0 <= i < TRACE_LEN,
    ensures
        trace_of(seed).len() == TRACE_LEN + 1,
        trace_of(seed)[0] == seed,
        trace_of(seed)[i + 1] == crate::permutation::phi(trace_of(seed)[i]),
{
    reveal_with_fuel(phi_iter, 2);
}

/// Iterates the permutation from the state seeded with `key` and `iv`,
/// recording the seed and the state after every round.
pub fn generate_trace(key: [u64; 2], iv: [u64; 2]) -> (trace: Vec<State>)
    ensures
        lanes_of(trace@) == trace_of(seed_lanes(key, iv)),
{
    let mut current = State::new([iv[0], iv[1], key[0], key[1]]);
    let ghost seed = current@;
    let mut trace: Vec<State> = Vec::new();
    trace.push(current);
    let mut i: usize = 0;
    while i < TRACE_LEN
        invariant
            i <= TRACE_LEN,
            trace@.len() == i + 1,
            current@ == phi_iter(seed, i as nat),
            forall|k: int| 0 <= k <= i ==> (#[trigger] trace@[k])@ == phi_iter(seed, k as nat),
        decreases TRACE_LEN - i,
    {
        current.apply_phi();
        trace.push(current);
        i = i + 1;
    }
    assert(lanes_of(trace@) =~= trace_of(seed));
    trace
}

/// The leaves of the commitment tree over a trace of at most `MERKLE_LEAVES`
/// snapshots.
pub fn commit_leaves(trace: &Vec<State>) -> (leaves: Vec<Digest>)
    requires
        trace@.len() <= MERKLE_LEAVES,
    ensures
        leaves@ == leaves_of(lanes_of(trace@)),
{
    let mut leaves: Vec<Digest> = Vec::new();
    let mut i: usize = 0;
    while i < MERKLE_LEAVES
        invariant
            i <= MERKLE_LEAVES,
            leaves@.len() == i,
            forall|k: int| 0 <= k < i ==> leaves@[k] == leaves_of(lanes_of(trace@))[k],
        decreases MERKLE_LEAVES - i,
    {
        let leaf = if i < trace.len() {
            trace[i].leaf()
        } else {
            zero()
        };
        leaves.push(leaf);
        i = i + 1;
    }
    assert(leaves@ =~= leaves_of(lanes_of(trace@)));
    leaves
}

} // verus!

//! The cut-and-choose proof: the committed root, the revealed transitions and
//! their inclusion paths.

use vstd::prelude::*;
use crate::challenge::{
    challenge_indices, challenge_seed, derive_index, derive_indices, lemma_seed_indices_bounded,
    seed_of, SLICES, TRACE_LEN,
};
use crate::digest::{leaf_hash, Digest};
use crate::merkle::{
    build_merkle_root, generate_merkle_proof, lemma_merkle_round_trip, merkle_path, merkle_root,
    path_root, verify_merkle_proof,
};
use crate::permutation::{phi, Lanes, State};
use crate::sponge::seed_lanes;
use crate::trace::{
    commit_leaves, generate_trace, lanes_of, leaves_of, lemma_trace_steps, trace_of,
    MERKLE_LEAVES,
};

verus! {

/// One revealed transition of the trace: the snapshots before and after
/// round `idx`.
#[derive(Clone, Copy, Debug, PartialEq, Eq)]
pub struct RevealedStep {
    pub idx: u32,
    pub pre: State,
    pub post: State,
}

/// A revealed transition as mathematical values.
pub ghost struct StepView {
    pub idx: int,
    pub pre: Lanes,
    pub post: Lanes,
}

impl View for RevealedStep {
    type V = StepView;

    open spec fn view(&self) -> StepView {
        StepView { idx: self.idx as int, pre: self.pre@, post: self.post@ }
    }
}

/// A proof that the permutation was iterated from a committed seed.
#[derive(Clone, Debug, PartialEq, Eq)]
pub struct ZKProof {
    pub root: Digest,
    pub revealed: Vec<RevealedStep>,
    pub paths: Vec<Vec<Digest>>,
}

/// A proof as mathematical values.
pub ghost struct ProofView {
    pub root: Digest,
    pub revealed: Seq<StepView>,
    pub paths: Seq<Seq<Digest>>,
}

/// The revealed transitions of a proof as mathematical values.
pub open spec fn steps_view(steps: Seq<RevealedStep>) -> Seq<StepView> {
    steps.map_values(|r: RevealedStep| r@)
}

/// The inclusion paths of a proof as mathematical values.
pub open spec fn paths_view(paths: Seq<Vec<Digest>>) -> Seq<Seq<Digest>> {
    paths.map_values(|p: Vec<Digest>| p@)
}

impl View for ZKProof {
    type V = ProofView;

    open spec fn view(&self) -> ProofView {
        ProofView {
            root: self.root,
            revealed: steps_view(self.revealed@),
            paths: paths_view(self.paths@),
        }
    }
}

/// The proof for a trace seeded with `seed`: the root over the trace's
/// leaves, and for each challenged index the transition at that index with
/// the inclusion path of its first snapshot.
pub open spec fn proof_of(seed: Lanes) -> ProofView {
    let trace = trace_of(seed);
    let leaves = leaves_of(trace);
    let root = merkle_root(leaves);
    let indices = challenge_indices(root);
    ProofView {
        root,
        revealed: Seq::new(
            SLICES as nat,
            |j: int| StepView { idx: indices[j], pre: trace[indices[j]], post: trace[indices[j] + 1] },
        ),
        paths: Seq::new(SLICES as nat, |j: int| merkle_path(leaves, indices[j])),
    }
}

/// Whether a revealed transition answers the challenge `expected` under
/// `root`: it is the challenged index, the index is one of the trace's, the
/// second snapshot is the permutation of the first, and the first snapshot's
/// leaf leads to `root` along `path`.
pub open spec fn step_valid(root: Digest, expected: int, step: StepView, path: Seq<Digest>) -> bool {
    &&& step.idx == expected
    &&& step.idx < TRACE_LEN
    &&& phi(step.pre) == step.post
    &&& path_root(leaf_hash(step.pre), step.idx, path) == root
}

/// Whether a proof is accepted: it reveals as many transitions and paths as
/// there are challenges, and each transition answers its challenge.
pub open spec fn proof_valid(p: ProofView) -> bool {
    &&& p.revealed.len() == SLICES
    &&& p.paths.len() == SLICES
    &&& forall|j: int|
        0 <= j < SLICES ==> step_valid(
            p.root,
            challenge_indices(p.root)[j],
            #[trigger] p.revealed[j],
            p.paths[j],
        )
}

/// Completeness: the proof made for any key and initialization vector is
/// accepted.
pub proof fn lemma_honest_proof_accepted(key: [u64; 2], iv: [u64; 2])
    ensures
        proof_valid(proof_of(seed_lanes(key, iv))),
{
    let seed = seed_lanes(key, iv);
    let trace = trace_of(seed);
    let leaves = leaves_of(trace);
    let root = merkle_root(leaves);
    let indices = challenge_indices(root);
    let p = proof_of(seed);
    lemma_seed_indices_bounded(challenge_seed(root), TRACE_LEN as int);
    assert forall|j: int| 0 <= j < SLICES implies step_valid(
        p.root,
        challenge_indices(p.root)[j],
        #[trigger] p.revealed[j],
        p.paths[j],
    ) by {
        let idx = indices[j];
        assert(0 <= idx < TRACE_LEN);
        lemma_trace_steps(seed, idx);
        assert(leaves[idx] == leaf_hash(trace[idx]));
        lemma_merkle_round_trip(leaves, idx);
    }
}

/// An accepted proof answers the indices that its root selects, in order,
/// and each of them is an index of the trace.
pub proof fn lemma_accepted_indices(p: ProofView, j: int)
    requires
        proof_valid(p),
        0 <= j < SLICES,
    ensures
        p.revealed[j].idx == challenge_indices(p.root)[j],
        0 <= p.revealed[j].idx < TRACE_LEN,
{
    lemma_seed_indices_bounded(challenge_seed(p.root), TRACE_LEN as int);
    assert(step_valid(p.root, challenge_indices(p.root)[j], p.revealed[j], p.paths[j]));
}

/// Tamper evidence that rests on no property of the hash: under one root, an
/// answer that keeps the first snapshot of an accepted answer but differs
/// from it in its index or its second snapshot is rejected.
pub proof fn lemma_changed_transition_rejected(p: ProofView, q: ProofView, j: int)
    requires
        proof_valid(p),
        0 <= j < SLICES,
        q.root == p.root,
        q.revealed.len() == SLICES,
        q.revealed[j].pre == p.revealed[j].pre,
        q.revealed[j] != p.revealed[j],
    ensures
        !proof_valid(q),
{
    assert(step_valid(p.root, challenge_indices(p.root)[j], p.revealed[j], p.paths[j]));
    if proof_valid(q) {
        assert(step_valid(q.root, challenge_indices(q.root)[j], q.revealed[j], q.paths[j]));
    }
}

/// Tamper evidence that rests on no property of the hash: an accepted proof
/// whose root alone is changed is rejected, because its paths still lead to
/// the root it had.
pub proof fn lemma_changed_root_rejected(p: ProofView, q: ProofView)
    requires
        proof_valid(p),
        q.revealed == p.revealed,
        q.paths == p.paths,
        q.root != p.root,
    ensures
        !proof_valid(q),
{
    assert(step_valid(p.root, challenge_indices(p.root)[0], p.revealed[0], p.paths[0]));
    if proof_valid(q) {
        assert(step_valid(q.root, challenge_indices(q.root)[0], q.revealed[0], q.paths[0]));
    }
}

/// A proof that reveals another number of transitions or of paths than
/// there are challenges is rejected.
pub proof fn lemma_wrong_counts_rejected(p: ProofView)
    requires
        p.revealed.len() != SLICES || p.paths.len() != SLICES,
    ensures
        !proof_valid(p),
{
}

impl State {
    /// Whether two snapshots hold the same lanes.
    pub fn same(&self, other: &State) -> (r: bool)
        ensures
            r == (self@ == other@),
    {
        self.s[0] == other.s[0] && self.s[1] == other.s[1] && self.s[2] == other.s[2] && self.s[3]
            == other.s[3]
    }
}

impl ZKProof {
    /// Commits to the trace seeded with `key` and `iv` and answers the
    /// challenge derived from the commitment.
    pub fn prove(key: [u64; 2], iv: [u64; 2]) -> (out: ZKProof)
        ensures
            out@ == proof_of(seed_lanes(key, iv)),
            proof_valid(out@),
    {
        let ghost seed = seed_lanes(key, iv);
        proof {
            lemma_honest_proof_accepted(key, iv);
        }
        let trace = generate_trace(key, iv);
        assert(trace@.len() == lanes_of(trace@).len());
        let leaves = commit_leaves(&trace);
        let root = build_merkle_root(leaves.as_slice());
        let challenge = seed_of(&root);
        let indices = derive_indices(&challenge, TRACE_LEN);
        let mut revealed: Vec<RevealedStep> = Vec::new();
        let mut paths: Vec<Vec<Digest>> = Vec::new();
        let mut j: usize = 0;
        while j < SLICES
            invariant
                j <= SLICES,
                indices@.len() == 4,
                forall|k: int| 0 <= k < 4 ==> #[trigger] indices@[k] < TRACE_LEN,
                indices@.map_values(|i: usize| i as int) == challenge_indices(root),
                lanes_of(trace@) == trace_of(seed),
                trace@.len() == TRACE_LEN + 1,
                leaves@ == leaves_of(trace_of(seed)),
                root == merkle_root(leaves@),
                revealed@.len() == j,
                paths@.len() == j,
                forall|k: int| 0 <= k < j ==> (#[trigger] revealed@[k])@ == proof_of(seed).revealed[k],
                forall|k: int| 0 <= k < j ==> (#[trigger] paths@[k])@ == proof_of(seed).paths[k],
            decreases SLICES - j,
        {
            let idx = indices[j];
            proof {
                assert(indices@.map_values(|i: usize| i as int)[j as int] == idx as int);
                assert(lanes_of(trace@)[idx as int] == trace@[idx as int]@);
                assert(lanes_of(trace@)[idx + 1] == trace@[idx + 1]@);
            }
            let step = RevealedStep { idx: idx as u32, pre: trace[idx], post: trace[idx + 1] };
            let path = generate_merkle_proof(leaves.as_slice(), idx);
            revealed.push(step);
            paths.push(path);
            j = j + 1;
        }
        let out = ZKProof { root, revealed, paths };
        proof {
            assert(out@.revealed =~= proof_of(seed).revealed);
            assert(out@.paths =~= proof_of(seed).paths);
        }
        out
    }

    /// Decides whether the proof is accepted. Every defect gives `false`.
    pub fn verify(&self) -> (ok: bool)
        ensures
            ok == proof_valid(self@),
    {
        if self.revealed.len() != SLICES || self.paths.len() != SLICES {
            return false;
        }
        let challenge = seed_of(&self.root);
        let mut j: usize = 0;
        while j < SLICES
            invariant
                j <= SLICES,
                self.revealed@.len() == SLICES,
                self.paths@.len() == SLICES,
                challenge == challenge_seed(self.root),
                forall|k: int|
                    0 <= k < j ==> step_valid(
                        self.root,
                        challenge_indices(self.root)[k],
                        #[trigger] self@.revealed[k],
                        self@.paths[k],
                    ),
            decreases SLICES - j,
        {
            let expected = derive_index(&challenge, j, TRACE_LEN);
            let step = self.revealed[j];
            let idx = step.idx as usize;
            proof {
                assert(self@.revealed[j as int] == step@);
                assert(self@.paths[j as int] == self.paths@[j as int]@);
            }
            if idx != expected {
                return false;
            }
            if idx >= TRACE_LEN {
                return false;
            }
            let mut candidate = step.pre;
            candidate.apply_phi();
            if !candidate.same(&step.post) {
                return false;
            }
            let leaf = step.pre.leaf();
            if !verify_merkle_proof(&self.root, &leaf, self.paths[j].as_slice(), idx, MERKLE_LEAVES) {
                return false;
            }
            j = j + 1;
        }
        true
    }
}

} // verus!

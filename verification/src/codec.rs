//! The canonical byte form of a proof.
//!
//! ```text
//! root            32 bytes
//! revealed count   4 bytes, little-endian
//! each transition  4 bytes index, 32 bytes first snapshot, 32 bytes second
//! path count       4 bytes, little-endian
//! each path        4 bytes sibling count, then 32 bytes per sibling
//! ```

use vstd::prelude::*;
use crate::digest::{digest_at, snapshot_bytes, Digest};
use crate::endian::{
    lemma_u32_le_round_trip, lemma_u32_of_le_round_trip, lemma_u64_le_round_trip, u32_from_le,
    u32_le, u32_of_le, u32_to_le, u64_le,
};
use crate::permutation::{Lanes, State};
use crate::challenge::{challenge_indices, challenge_seed, lemma_seed_indices_bounded, TRACE_LEN};
use crate::merkle::{lemma_path_len, merkle_root, tree_depth};
use crate::sponge::seed_lanes;
use crate::trace::{leaves_of, trace_of};
use crate::zkproof::{
    paths_view, proof_of, steps_view, ProofView, RevealedStep, StepView, ZKProof,
};

verus! {

/// The largest encoded proof that fits a single transport frame.
pub const MAX_PROOF_SIZE: usize = 1232;

/// The bytes of one revealed transition.
pub open spec fn encode_step(s: StepView) -> Seq<u8> {
    u32_le(s.idx as u32) + snapshot_bytes(s.pre) + snapshot_bytes(s.post)
}

/// The bytes of a run of revealed transitions, in order.
pub open spec fn encode_steps(steps: Seq<StepView>) -> Seq<u8>
    decreases steps.len(),
{
    if steps.len() == 0 {
        Seq::empty()
    } else {
        encode_steps(steps.drop_last()) + encode_step(steps.last())
    }
}

/// The bytes of a run of digests, in order.
pub open spec fn encode_digests(digests: Seq<Digest>) -> Seq<u8>
    decreases digests.len(),
{
    if digests.len() == 0 {
        Seq::empty()
    } else {
        encode_digests(digests.drop_last()) + digests.last()@
    }
}

/// The bytes of one inclusion path: its sibling count, then its siblings.
pub open spec fn encode_path(path: Seq<Digest>) -> Seq<u8> {
    u32_le(path.len() as u32) + encode_digests(path)
}

/// The bytes of a run of inclusion paths, in order.
pub open spec fn encode_paths(paths: Seq<Seq<Digest>>) -> Seq<u8>
    decreases paths.len(),
{
    if paths.len() == 0 {
        Seq::empty()
    } else {
        encode_paths(paths.drop_last()) + encode_path(paths.last())
    }
}

/// Whether every count and index of a proof fits the 32-bit field that
/// carries it.
pub open spec fn encodable(p: ProofView) -> bool {
    &&& p.revealed.len() <= u32::MAX
    &&& p.paths.len() <= u32::MAX
    &&& forall|i: int| 0 <= i < p.revealed.len() ==> 0 <= (#[trigger] p.revealed[i]).idx <= u32::MAX
    &&& forall|i: int| 0 <= i < p.paths.len() ==> (#[trigger] p.paths[i]).len() <= u32::MAX
}

/// The canonical bytes of a proof.
pub open spec fn encoding(p: ProofView) -> Seq<u8> {
    p.root@ + u32_le(p.revealed.len() as u32) + encode_steps(p.revealed) + u32_le(
        p.paths.len() as u32,
    ) + encode_paths(p.paths)
}

/// Whether `bytes` is exactly `count` inclusion paths, one after the other:
/// each a sibling count followed by that many 32-byte siblings, with nothing
/// missing and nothing left over.
pub open spec fn paths_framed(bytes: Seq<u8>, count: nat) -> bool
    decreases count,
{
    if count == 0 {
        bytes.len() == 0
    } else {
        &&& bytes.len() >= 4
        &&& bytes.len() >= 4 + 32 * u32_of_le(bytes.subrange(0, 4))
        &&& paths_framed(
            bytes.subrange(4 + 32 * u32_of_le(bytes.subrange(0, 4)), bytes.len() as int),
            (count - 1) as nat,
        )
    }
}

/// Whether `bytes` has the layout of one proof: a root, a count of
/// transitions and that many transitions, a count of paths and exactly that
/// many paths.
pub open spec fn well_framed(bytes: Seq<u8>) -> bool {
    &&& bytes.len() >= 36
    &&& bytes.len() >= 40 + 68 * u32_of_le(bytes.subrange(32, 36))
    &&& paths_framed(
        bytes.subrange(40 + 68 * u32_of_le(bytes.subrange(32, 36)), bytes.len() as int),
        u32_of_le(
            bytes.subrange(
                36 + 68 * u32_of_le(bytes.subrange(32, 36)),
                40 + 68 * u32_of_le(bytes.subrange(32, 36)),
            ),
        ) as nat,
    )
}

/// The number of bytes a run of inclusion paths takes.
pub open spec fn paths_size(paths: Seq<Seq<Digest>>) -> nat
    decreases paths.len(),
{
    if paths.len() == 0 {
        0
    } else {
        paths_size(paths.drop_last()) + 4 + 32 * paths.last().len()
    }
}

/// A run of transitions takes 68 bytes each.
pub proof fn lemma_encode_steps_len(steps: Seq<StepView>)
    ensures
        encode_steps(steps).len() == 68 * steps.len(),
    decreases steps.len(),
{
    if steps.len() > 0 {
        lemma_encode_steps_len(steps.drop_last());
    }
}

/// A run of digests takes 32 bytes each.
pub proof fn lemma_encode_digests_len(digests: Seq<Digest>)
    ensures
        encode_digests(digests).len() == 32 * digests.len(),
    decreases digests.len(),
{
    if digests.len() > 0 {
        lemma_encode_digests_len(digests.drop_last());
    }
}

/// A run of paths takes four bytes per path and 32 per sibling.
pub proof fn lemma_encode_paths_len(paths: Seq<Seq<Digest>>)
    ensures
        encode_paths(paths).len() == paths_size(paths),
    decreases paths.len(),
{
    if paths.len() > 0 {
        lemma_encode_paths_len(paths.drop_last());
        lemma_encode_digests_len(paths.last());
    }
}

/// The length of a proof's canonical bytes.
pub proof fn lemma_encoding_len(p: ProofView)
    ensures
        encoding(p).len() == 40 + 68 * p.revealed.len() + paths_size(p.paths),
{
    lemma_encode_steps_len(p.revealed);
    lemma_encode_paths_len(p.paths);
}

/// A run of paths that all have `depth` siblings takes `4 + 32 * depth`
/// bytes per path.
pub proof fn lemma_uniform_paths_size(paths: Seq<Seq<Digest>>, depth: nat)
    requires
        forall|i: int| 0 <= i < paths.len() ==> (#[trigger] paths[i]).len() == depth,
    ensures
        paths_size(paths) == paths.len() * (4 + 32 * depth),
    decreases paths.len(),
{
    if paths.len() > 0 {
        lemma_uniform_paths_size(paths.drop_last(), depth);
        assert(paths.len() * (4 + 32 * depth) == (paths.len() - 1) * (4 + 32 * depth) + (4 + 32
            * depth)) by (nonlinear_arith);
    }
}

/// The proof made for any key and initialization vector can be encoded, and
/// its canonical bytes are 968 long: within the frame limit.
pub proof fn lemma_honest_proof_size(key: [u64; 2], iv: [u64; 2])
    ensures
        encodable(proof_of(seed_lanes(key, iv))),
        encoding(proof_of(seed_lanes(key, iv))).len() == 968,
        encoding(proof_of(seed_lanes(key, iv))).len() <= MAX_PROOF_SIZE,
{
    let seed = seed_lanes(key, iv);
    let leaves = leaves_of(trace_of(seed));
    let root = merkle_root(leaves);
    let indices = challenge_indices(root);
    let p = proof_of(seed);
    lemma_seed_indices_bounded(challenge_seed(root), TRACE_LEN as int);
    assert(tree_depth(32) == 5) by {
        reveal_with_fuel(tree_depth, 7);
    }
    assert forall|i: int| 0 <= i < p.paths.len() implies (#[trigger] p.paths[i]).len() == 5 by {
        lemma_path_len(leaves, indices[i]);
    }
    lemma_uniform_paths_size(p.paths, 5);
    lemma_encoding_len(p);
}

/// A run of paths is its first path followed by the run of the others.
pub proof fn lemma_encode_paths_front(paths: Seq<Seq<Digest>>)
    requires
        paths.len() > 0,
    ensures
        encode_paths(paths) == encode_path(paths[0]) + encode_paths(paths.drop_first()),
    decreases paths.len(),
{
    if paths.len() == 1 {
        assert(paths.drop_last() =~= Seq::<Seq<Digest>>::empty());
        assert(paths.drop_first() =~= Seq::<Seq<Digest>>::empty());
        assert(encode_paths(paths) =~= encode_path(paths[0]) + encode_paths(paths.drop_first()));
    } else {
        let init = paths.drop_last();
        let tail = paths.drop_first();
        lemma_encode_paths_front(init);
        assert(init.drop_first() =~= tail.drop_last());
        assert(tail.last() == paths.last());
        assert(init[0] == paths[0]);
        assert(encode_paths(paths) =~= encode_path(paths[0]) + encode_paths(tail));
    }
}

/// The bytes of a run of paths are framed as that many paths.
pub proof fn lemma_encode_paths_framed(paths: Seq<Seq<Digest>>)
    requires
        forall|i: int| 0 <= i < paths.len() ==> (#[trigger] paths[i]).len() <= u32::MAX,
    ensures
        paths_framed(encode_paths(paths), paths.len()),
    decreases paths.len(),
{
    if paths.len() > 0 {
        let bytes = encode_paths(paths);
        let first = paths[0];
        let tail = paths.drop_first();
        lemma_encode_paths_front(paths);
        lemma_encode_digests_len(first);
        lemma_u32_le_round_trip(first.len() as u32);
        assert(bytes.subrange(0, 4) =~= u32_le(first.len() as u32));
        assert(bytes.subrange(4 + 32 * (first.len() as int), bytes.len() as int) =~= encode_paths(
            tail,
        ));
        assert forall|i: int| 0 <= i < tail.len() implies (#[trigger] tail[i]).len() <= u32::MAX by {
            assert(tail[i] == paths[i + 1]);
        }
        lemma_encode_paths_framed(tail);
    }
}

/// The canonical bytes of a proof are laid out as one proof.
pub proof fn lemma_encoding_well_framed(p: ProofView)
    requires
        encodable(p),
    ensures
        well_framed(encoding(p)),
{
    let bytes = encoding(p);
    let n = p.revealed.len() as int;
    lemma_encoding_len(p);
    lemma_encode_steps_len(p.revealed);
    lemma_u32_le_round_trip(n as u32);
    lemma_u32_le_round_trip(p.paths.len() as u32);
    assert(bytes.subrange(32, 36) =~= u32_le(n as u32));
    assert(bytes.subrange(36 + 68 * n, 40 + 68 * n) =~= u32_le(p.paths.len() as u32));
    assert(bytes.subrange(40 + 68 * n, bytes.len() as int) =~= encode_paths(p.paths));
    lemma_encode_paths_framed(p.paths);
}

/// Snapshots with the same canonical bytes are the same.
pub proof fn lemma_snapshot_bytes_injective(a: Lanes, b: Lanes)
    requires
        snapshot_bytes(a) == snapshot_bytes(b),
    ensures
        a == b,
{
    let bytes = snapshot_bytes(a);
    lemma_u64_le_round_trip(a.0);
    lemma_u64_le_round_trip(a.1);
    lemma_u64_le_round_trip(a.2);
    lemma_u64_le_round_trip(a.3);
    lemma_u64_le_round_trip(b.0);
    lemma_u64_le_round_trip(b.1);
    lemma_u64_le_round_trip(b.2);
    lemma_u64_le_round_trip(b.3);
    assert(bytes.subrange(0, 8) =~= u64_le(a.0) && bytes.subrange(0, 8) =~= u64_le(b.0));
    assert(bytes.subrange(8, 16) =~= u64_le(a.1) && bytes.subrange(8, 16) =~= u64_le(b.1));
    assert(bytes.subrange(16, 24) =~= u64_le(a.2) && bytes.subrange(16, 24) =~= u64_le(b.2));
    assert(bytes.subrange(24, 32) =~= u64_le(a.3) && bytes.subrange(24, 32) =~= u64_le(b.3));
}

/// Transitions with the same bytes are the same.
pub proof fn lemma_encode_step_injective(a: StepView, b: StepView)
    requires
        0 <= a.idx <= u32::MAX,
        0 <= b.idx <= u32::MAX,
        encode_step(a) == encode_step(b),
    ensures
        a == b,
{
    let bytes = encode_step(a);
    lemma_u32_le_round_trip(a.idx as u32);
    lemma_u32_le_round_trip(b.idx as u32);
    assert(bytes.subrange(0, 4) =~= u32_le(a.idx as u32) && bytes.subrange(0, 4) =~= u32_le(
        b.idx as u32,
    ));
    assert(bytes.subrange(4, 36) =~= snapshot_bytes(a.pre) && bytes.subrange(4, 36)
        =~= snapshot_bytes(b.pre));
    assert(bytes.subrange(36, 68) =~= snapshot_bytes(a.post) && bytes.subrange(36, 68)
        =~= snapshot_bytes(b.post));
    lemma_snapshot_bytes_injective(a.pre, b.pre);
    lemma_snapshot_bytes_injective(a.post, b.post);
}

/// Runs of equally many transitions with the same bytes are the same.
pub proof fn lemma_encode_steps_injective(a: Seq<StepView>, b: Seq<StepView>)
    requires
        a.len() == b.len(),
        forall|i: int| 0 <= i < a.len() ==> 0 <= (#[trigger] a[i]).idx <= u32::MAX,
        forall|i: int| 0 <= i < b.len() ==> 0 <= (#[trigger] b[i]).idx <= u32::MAX,
        encode_steps(a) == encode_steps(b),
    ensures
        a == b,
    decreases a.len(),
{
    if a.len() > 0 {
        let bytes = encode_steps(a);
        let cut: int = 68 * (a.len() - 1);
        lemma_encode_steps_len(a.drop_last());
        lemma_encode_steps_len(b.drop_last());
        assert(bytes.subrange(0, cut) =~= encode_steps(a.drop_last()));
        assert(bytes.subrange(0, cut) =~= encode_steps(b.drop_last()));
        assert(bytes.subrange(cut, bytes.len() as int) =~= encode_step(a.last()));
        assert(bytes.subrange(cut, bytes.len() as int) =~= encode_step(b.last()));
        lemma_encode_steps_injective(a.drop_last(), b.drop_last());
        lemma_encode_step_injective(a.last(), b.last());
        assert(a =~= a.drop_last().push(a.last()));
        assert(b =~= b.drop_last().push(b.last()));
    } else {
        assert(a =~= b);
    }
}

/// Runs of equally many digests with the same bytes are the same.
pub proof fn lemma_encode_digests_injective(a: Seq<Digest>, b: Seq<Digest>)
    requires
        a.len() == b.len(),
        encode_digests(a) == encode_digests(b),
    ensures
        a == b,
    decreases a.len(),
{
    if a.len() > 0 {
        let bytes = encode_digests(a);
        let cut: int = 32 * (a.len() - 1);
        lemma_encode_digests_len(a.drop_last());
        lemma_encode_digests_len(b.drop_last());
        assert(bytes.subrange(0, cut) =~= encode_digests(a.drop_last()));
        assert(bytes.subrange(0, cut) =~= encode_digests(b.drop_last()));
        assert(bytes.subrange(cut, bytes.len() as int) =~= a.last()@);
        assert(bytes.subrange(cut, bytes.len() as int) =~= b.last()@);
        lemma_encode_digests_injective(a.drop_last(), b.drop_last());
        assert(a.last() =~= b.last());
        assert(a =~= a.drop_last().push(a.last()));
        assert(b =~= b.drop_last().push(b.last()));
    } else {
        assert(a =~= b);
    }
}

/// Runs of equally many paths with the same bytes are the same.
pub proof fn lemma_encode_paths_injective(a: Seq<Seq<Digest>>, b: Seq<Seq<Digest>>)
    requires
        a.len() == b.len(),
        forall|i: int| 0 <= i < a.len() ==> (#[trigger] a[i]).len() <= u32::MAX,
        forall|i: int| 0 <= i < b.len() ==> (#[trigger] b[i]).len() <= u32::MAX,
        encode_paths(a) == encode_paths(b),
    ensures
        a == b,
    decreases a.len(),
{
    if a.len() > 0 {
        let bytes = encode_paths(a);
        lemma_encode_paths_front(a);
        lemma_encode_paths_front(b);
        lemma_encode_digests_len(a[0]);
        lemma_encode_digests_len(b[0]);
        lemma_u32_le_round_trip(a[0].len() as u32);
        lemma_u32_le_round_trip(b[0].len() as u32);
        assert(bytes.subrange(0, 4) =~= u32_le(a[0].len() as u32));
        assert(bytes.subrange(0, 4) =~= u32_le(b[0].len() as u32));
        let cut: int = 4 + 32 * (a[0].len() as int);
        assert(bytes.subrange(4, cut) =~= encode_digests(a[0]));
        assert(bytes.subrange(4, cut) =~= encode_digests(b[0]));
        lemma_encode_digests_injective(a[0], b[0]);
        let ta = a.drop_first();
        let tb = b.drop_first();
        assert(bytes.subrange(cut, bytes.len() as int) =~= encode_paths(ta));
        assert(bytes.subrange(cut, bytes.len() as int) =~= encode_paths(tb));
        assert forall|i: int| 0 <= i < ta.len() implies (#[trigger] ta[i]).len() <= u32::MAX by {
            assert(ta[i] == a[i + 1]);
        }
        assert forall|i: int| 0 <= i < tb.len() implies (#[trigger] tb[i]).len() <= u32::MAX by {
            assert(tb[i] == b[i + 1]);
        }
        lemma_encode_paths_injective(ta, tb);
        assert(a =~= seq![a[0]] + ta);
        assert(b =~= seq![b[0]] + tb);
    } else {
        assert(a =~= b);
    }
}

/// Proofs with the same canonical bytes are the same: the encoding loses
/// nothing.
pub proof fn lemma_encoding_injective(a: ProofView, b: ProofView)
    requires
        encodable(a),
        encodable(b),
        encoding(a) == encoding(b),
    ensures
        a == b,
{
    let bytes = encoding(a);
    let n = a.revealed.len() as int;
    lemma_encoding_len(a);
    lemma_encoding_len(b);
    lemma_encode_steps_len(a.revealed);
    lemma_encode_steps_len(b.revealed);
    assert(bytes.subrange(0, 32) =~= a.root@ && bytes.subrange(0, 32) =~= b.root@);
    assert(a.root =~= b.root);
    lemma_u32_le_round_trip(a.revealed.len() as u32);
    lemma_u32_le_round_trip(b.revealed.len() as u32);
    assert(bytes.subrange(32, 36) =~= u32_le(a.revealed.len() as u32));
    assert(bytes.subrange(32, 36) =~= u32_le(b.revealed.len() as u32));
    assert(b.revealed.len() == n);
    assert(bytes.subrange(36, 36 + 68 * n) =~= encode_steps(a.revealed));
    assert(bytes.subrange(36, 36 + 68 * n) =~= encode_steps(b.revealed));
    lemma_encode_steps_injective(a.revealed, b.revealed);
    lemma_u32_le_round_trip(a.paths.len() as u32);
    lemma_u32_le_round_trip(b.paths.len() as u32);
    assert(bytes.subrange(36 + 68 * n, 40 + 68 * n) =~= u32_le(a.paths.len() as u32));
    assert(bytes.subrange(36 + 68 * n, 40 + 68 * n) =~= u32_le(b.paths.len() as u32));
    assert(bytes.subrange(40 + 68 * n, bytes.len() as int) =~= encode_paths(a.paths));
    assert(bytes.subrange(40 + 68 * n, bytes.len() as int) =~= encode_paths(b.paths));
    lemma_encode_paths_injective(a.paths, b.paths);
}

/// Appends `bytes` to `buf`.
fn append(buf: &mut Vec<u8>, bytes: &[u8])
    ensures
        final(buf)@ == old(buf)@ + bytes@,
{
    let mut i: usize = 0;
    while i < bytes.len()
        invariant
            i <= bytes@.len(),
            buf@ == old(buf)@ + bytes@.subrange(0, i as int),
        decreases bytes@.len() - i,
    {
        buf.push(bytes[i]);
        assert(buf@ =~= old(buf)@ + bytes@.subrange(0, i + 1));
        i = i + 1;
    }
    assert(bytes@.subrange(0, i as int) =~= bytes@);
}

impl ZKProof {
    /// The canonical bytes of the proof, or `None` where a count does not fit
    /// its 32-bit field.
    pub fn encode(&self) -> (out: Option<Vec<u8>>)
        ensures
            out is Some <==> encodable(self@),
            out matches Some(bytes) ==> bytes@ == encoding(self@),
    {
        let n = self.revealed.len();
        let m = self.paths.len();
        if n > 0xFFFF_FFFF || m > 0xFFFF_FFFF {
            return None;
        }
        let ghost steps = steps_view(self.revealed@);
        let ghost paths = paths_view(self.paths@);
        let mut buf: Vec<u8> = Vec::new();
        append(&mut buf, self.root.as_slice());
        append(&mut buf, u32_to_le(n as u32).as_slice());
        let ghost head = buf@;
        let mut i: usize = 0;
        while i < n
            invariant
                i <= n,
                n == self.revealed@.len(),
                steps == steps_view(self.revealed@),
                buf@ == head + encode_steps(steps.subrange(0, i as int)),
            decreases n - i,
        {
            let step = &self.revealed[i];
            let ghost before = buf@;
            append(&mut buf, u32_to_le(step.idx).as_slice());
            append(&mut buf, step.pre.to_bytes().as_slice());
            append(&mut buf, step.post.to_bytes().as_slice());
            proof {
                let upto = steps.subrange(0, i + 1);
                assert(upto.drop_last() =~= steps.subrange(0, i as int));
                assert(upto.last() == step@);
                assert(step.idx as int as u32 == step.idx);
                assert(buf@ =~= head + encode_steps(upto));
            }
            i = i + 1;
        }
        assert(steps.subrange(0, n as int) =~= steps);
        append(&mut buf, u32_to_le(m as u32).as_slice());
        let ghost head = buf@;
        let mut j: usize = 0;
        while j < m
            invariant
                j <= m,
                m == self.paths@.len(),
                paths == paths_view(self.paths@),
                buf@ == head + encode_paths(paths.subrange(0, j as int)),
                forall|k: int| 0 <= k < j ==> (#[trigger] paths[k]).len() <= u32::MAX,
            decreases m - j,
        {
            let path = &self.paths[j];
            let c = path.len();
            if c > 0xFFFF_FFFF {
                assert(paths[j as int].len() > u32::MAX);
                return None;
            }
            let ghost before = buf@;
            append(&mut buf, u32_to_le(c as u32).as_slice());
            let mut k: usize = 0;
            while k < c
                invariant
                    k <= c,
                    c == path@.len(),
                    buf@ == before + u32_le(c as u32) + encode_digests(path@.subrange(0, k as int)),
                decreases c - k,
            {
                append(&mut buf, path[k].as_slice());
                proof {
                    let upto = path@.subrange(0, k + 1);
                    assert(upto.drop_last() =~= path@.subrange(0, k as int));
                    assert(upto.last() == path@[k as int]);
                    assert(buf@ =~= before + u32_le(c as u32) + encode_digests(upto));
                }
                k = k + 1;
            }
            proof {
                assert(path@.subrange(0, c as int) =~= path@);
                let upto = paths.subrange(0, j + 1);
                assert(upto.drop_last() =~= paths.subrange(0, j as int));
                assert(upto.last() == path@);
                assert(buf@ =~= head + encode_paths(upto));
            }
            j = j + 1;
        }
        assert(paths.subrange(0, m as int) =~= paths);
        assert(buf@ =~= encoding(self@));
        Some(buf)
    }

    /// Reads a proof from its canonical bytes: the one proof that encodes
    /// to `bytes`, or `None` where no proof does, which is where `bytes` is
    /// not laid out as exactly one proof.
    pub fn decode(bytes: &[u8]) -> (out: Option<ZKProof>)
        ensures
            out is Some <==> well_framed(bytes@),
            out matches Some(p) ==> encodable(p@) && encoding(p@) == bytes@,
            out matches Some(p) ==> forall|v: ProofView|
                encodable(v) && #[trigger] encoding(v) == bytes@ ==> v == p@,
            out is None ==> forall|v: ProofView| encodable(v) ==> #[trigger] encoding(v) != bytes@,
    {
        proof {
            assert forall|v: ProofView| encodable(v) && #[trigger] encoding(v)
                == bytes@ implies well_framed(bytes@) by {
                lemma_encoding_well_framed(v);
            }
        }
        let len = bytes.len();
        if len < 36 {
            return None;
        }
        let root = digest_at(bytes, 0);
        let n = u32_from_le(bytes, 32);
        if len < 40 || ((len - 40) as u64) < 68 * (n as u64) {
            return None;
        }
        let ghost b = bytes@;
        let mut revealed: Vec<RevealedStep> = Vec::new();
        let mut i: usize = 0;
        let mut pos: usize = 36;
        while i < n as usize
            invariant
                i <= n,
                len == b.len(),
                b == bytes@,
                40 + 68 * n <= len,
                pos == 36 + 68 * i,
                revealed@.len() == i,
                encode_steps(steps_view(revealed@)) == b.subrange(36, pos as int),
            decreases n - i,
        {
            let idx = u32_from_le(bytes, pos);
            let pre = State::from_bytes(bytes, pos + 4);
            let post = State::from_bytes(bytes, pos + 36);
            let step = RevealedStep { idx, pre, post };
            let ghost before = steps_view(revealed@);
            revealed.push(step);
            proof {
                let after = steps_view(revealed@);
                assert(after.drop_last() =~= before);
                assert(after.last() == step@);
                lemma_u32_of_le_round_trip(b.subrange(pos as int, pos + 4));
                assert(step.idx as int as u32 == step.idx);
                assert(encode_step(step@) =~= b.subrange(pos as int, pos + 68));
                assert(encode_steps(after) =~= b.subrange(36, pos + 68));
            }
            pos = pos + 68;
            i = i + 1;
        }
        let m = u32_from_le(bytes, pos);
        pos = pos + 4;
        let ghost start = pos;
        let mut paths: Vec<Vec<Digest>> = Vec::new();
        let mut j: usize = 0;
        assert(encode_paths(paths_view(paths@)) =~= b.subrange(start as int, pos as int));
        assert(well_framed(b) == paths_framed(b.subrange(start as int, len as int), m as nat));
        while j < m as usize
            invariant
                j <= m,
                forall|v: ProofView| encodable(v) && #[trigger] encoding(v) == b ==> well_framed(b),
                well_framed(b) == paths_framed(b.subrange(start as int, len as int), m as nat),
                len == b.len(),
                b == bytes@,
                start == 40 + 68 * n,
                start <= pos <= len,
                paths@.len() == j,
                encode_paths(paths_view(paths@)) == b.subrange(start as int, pos as int),
                forall|k: int| 0 <= k < j ==> (#[trigger] paths@[k])@.len() <= u32::MAX,
                paths_framed(b.subrange(pos as int, len as int), (m - j) as nat) == paths_framed(
                    b.subrange(start as int, len as int),
                    m as nat,
                ),
            decreases m - j,
        {
            let ghost rest = b.subrange(pos as int, len as int);
            if len - pos < 4 {
                assert(!paths_framed(rest, (m - j) as nat));
                return None;
            }
            let c = u32_from_le(bytes, pos);
            assert(rest.subrange(0, 4) =~= b.subrange(pos as int, pos + 4));
            if ((len - pos - 4) as u64) < 32 * (c as u64) {
                assert(!paths_framed(rest, (m - j) as nat));
                return None;
            }
            let mut path: Vec<Digest> = Vec::new();
            let mut k: usize = 0;
            while k < c as usize
                invariant
                    k <= c,
                    len == b.len(),
                    b == bytes@,
                    pos + 4 + 32 * c <= len,
                    path@.len() == k,
                    encode_digests(path@) == b.subrange(pos + 4, pos + 4 + 32 * k),
                decreases c - k,
            {
                let d = digest_at(bytes, pos + 4 + 32 * k);
                let ghost before = path@;
                path.push(d);
                proof {
                    assert(path@.drop_last() =~= before);
                    assert(encode_digests(path@) =~= b.subrange(pos + 4, pos + 4 + 32 * (k + 1)));
                }
                k = k + 1;
            }
            let ghost before = paths_view(paths@);
            let ghost done = path@;
            paths.push(path);
            proof {
                let after = paths_view(paths@);
                assert(after.drop_last() =~= before);
                assert(after.last() == done);
                lemma_u32_of_le_round_trip(b.subrange(pos as int, pos + 4));
                assert(done.len() as u32 == c);
                assert(encode_path(done) =~= b.subrange(pos as int, pos + 4 + 32 * c));
                assert(encode_paths(after) =~= b.subrange(start as int, pos + 4 + 32 * c));
                assert(rest.subrange(4 + 32 * c, rest.len() as int) =~= b.subrange(
                    pos + 4 + 32 * c,
                    len as int,
                ));
            }
            pos = pos + 4 + 32 * (c as usize);
            j = j + 1;
        }
        if pos != len {
            return None;
        }
        let out = ZKProof { root, revealed, paths };
        proof {
            lemma_u32_of_le_round_trip(b.subrange(32, 36));
            lemma_u32_of_le_round_trip(b.subrange(start - 4, start as int));
            assert(out@.revealed.len() as u32 == n);
            assert(out@.paths.len() as u32 == m);
            assert(encoding(out@) =~= b);
            assert forall|k: int| 0 <= k < out@.paths.len() implies (#[trigger] out@.paths[k]).len()
                <= u32::MAX by {
                assert(out@.paths[k] == paths@[k]@);
            }
            assert forall|v: ProofView| encodable(v) && #[trigger] encoding(v) == b implies v
                == out@ by {
                lemma_encoding_injective(v, out@);
            }
        }
        Some(out)
    }
}

} // verus!

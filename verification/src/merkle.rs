//! The Merkle commitment: levels, root, inclusion paths and their check.

use vstd::prelude::*;
use crate::digest::{combine, digest_eq, node_hash, Digest};

verus! {

/// The level above `level`: each node is the parent of a pair of neighbours.
/// A last node without a right neighbour is paired with itself.
pub open spec fn next_level(level: Seq<Digest>) -> Seq<Digest> {
    Seq::new(
        ((level.len() + 1) / 2) as nat,
        |i: int|
            node_hash(
                level[2 * i],
                if 2 * i + 1 < level.len() {
                    level[2 * i + 1]
                } else {
                    level[2 * i]
                },
            ),
    )
}

/// The root of the tree over a non-empty level.
pub open spec fn merkle_root(level: Seq<Digest>) -> Digest
    decreases level.len(),
{
    if level.len() <= 1 {
        level[0]
    } else {
        merkle_root(next_level(level))
    }
}

/// The number of levels above a level of `n` nodes: the length of every
/// inclusion path of its tree.
pub open spec fn tree_depth(n: nat) -> nat
    decreases n,
{
    if n <= 1 {
        0
    } else {
        1 + tree_depth((n + 1) / 2)
    }
}

/// The neighbour that node `idx` is paired with: the node at `idx` with its
/// lowest bit flipped, or the node itself where that position is past the end.
pub open spec fn sibling(level: Seq<Digest>, idx: int) -> Digest {
    let other = if idx % 2 == 0 {
        idx + 1
    } else {
        idx - 1
    };
    if other < level.len() {
        level[other]
    } else {
        level[idx]
    }
}

/// The inclusion path of node `idx`: its sibling at each level, leaf level first.
pub open spec fn merkle_path(level: Seq<Digest>, idx: int) -> Seq<Digest>
    decreases level.len(),
{
    if level.len() <= 1 {
        Seq::empty()
    } else {
        seq![sibling(level, idx)] + merkle_path(next_level(level), idx / 2)
    }
}

/// The root that a leaf at position `idx` and its path lead to. At each level
/// the running hash is the left child where the index is even, the right
/// child where it is odd.
pub open spec fn path_root(leaf: Digest, idx: int, path: Seq<Digest>) -> Digest
    decreases path.len(),
{
    if path.len() == 0 {
        leaf
    } else {
        let parent = if idx % 2 == 0 {
            node_hash(leaf, path[0])
        } else {
            node_hash(path[0], leaf)
        };
        path_root(parent, idx / 2, path.drop_first())
    }
}

/// Every inclusion path of a tree has the tree's depth as its length.
pub proof fn lemma_path_len(level: Seq<Digest>, idx: int)
    ensures
        merkle_path(level, idx).len() == tree_depth(level.len()),
    decreases level.len(),
{
    if level.len() > 1 {
        lemma_path_len(next_level(level), idx / 2);
    }
}

/// Recomputing the root from any leaf and its generated path gives the root
/// of the tree.
pub proof fn lemma_merkle_round_trip(level: Seq<Digest>, idx: int)
    requires
        0 <= idx < level.len(),
    ensures
        path_root(level[idx], idx, merkle_path(level, idx)) == merkle_root(level),
    decreases level.len(),
{
    if level.len() > 1 {
        let up = next_level(level);
        let path = merkle_path(level, idx);
        assert(path[0] == sibling(level, idx));
        assert(path.drop_first() =~= merkle_path(up, idx / 2));
        let parent = if idx % 2 == 0 {
            node_hash(level[idx], path[0])
        } else {
            node_hash(path[0], level[idx])
        };
        assert(parent == up[idx / 2]);
        lemma_merkle_round_trip(up, idx / 2);
    }
}

/// Builds the level above `level`.
pub fn merkle_parents(level: &Vec<Digest>) -> (out: Vec<Digest>)
    ensures
        out@ == next_level(level@),
{
    let n = level.len();
    let half = n / 2 + n % 2;
    let mut out: Vec<Digest> = Vec::new();
    let mut j: usize = 0;
    while j < half
        invariant
            n == level@.len(),
            half == (n + 1) / 2,
            j <= half,
            out@.len() == j,
            forall|k: int| 0 <= k < j ==> out@[k] == next_level(level@)[k],
        decreases half - j,
    {
        let node = if 2 * j + 1 < n {
            combine(&level[2 * j], &level[2 * j + 1])
        } else {
            combine(&level[2 * j], &level[2 * j])
        };
        out.push(node);
        j = j + 1;
    }
    assert(out@ =~= next_level(level@));
    out
}

/// The root of the Merkle tree over `leaves`.
pub fn build_merkle_root(leaves: &[Digest]) -> (root: Digest)
    requires
        leaves@.len() >= 1,
    ensures
        root == merkle_root(leaves@),
{
    let mut level = copy_level(leaves);
    while level.len() > 1
        invariant
            level@.len() >= 1,
            merkle_root(level@) == merkle_root(leaves@),
        decreases level@.len(),
    {
        level = merkle_parents(&level);
    }
    level[0]
}

/// The inclusion path of leaf `target_idx` in the tree over `leaves`.
pub fn generate_merkle_proof(leaves: &[Digest], target_idx: usize) -> (path: Vec<Digest>)
    requires
        target_idx < leaves@.len(),
    ensures
        path@ == merkle_path(leaves@, target_idx as int),
{
    let mut level = copy_level(leaves);
    let mut idx = target_idx;
    let mut path: Vec<Digest> = Vec::new();
    while level.len() > 1
        invariant
            idx < level@.len(),
            path@ + merkle_path(level@, idx as int) == merkle_path(leaves@, target_idx as int),
        decreases level@.len(),
    {
        let other = if idx % 2 == 0 {
            idx + 1
        } else {
            idx - 1
        };
        let sib = if other < level.len() {
            level[other]
        } else {
            level[idx]
        };
        proof {
            assert(sib == sibling(level@, idx as int));
            assert((path@ + seq![sib]) + merkle_path(next_level(level@), idx as int / 2) =~= path@
                + merkle_path(level@, idx as int));
        }
        path.push(sib);
        level = merkle_parents(&level);
        idx = idx / 2;
    }
    assert(path@ + merkle_path(level@, idx as int) =~= path@);
    path
}

/// The root that `leaf` at position `idx` and `path` lead to.
pub fn recompute_root(leaf: &Digest, idx: usize, path: &[Digest]) -> (root: Digest)
    ensures
        root == path_root(*leaf, idx as int, path@),
{
    let mut h = *leaf;
    let mut i = idx;
    let mut k: usize = 0;
    assert(path@.subrange(0, path@.len() as int) =~= path@);
    while k < path.len()
        invariant
            k <= path@.len(),
            path_root(h, i as int, path@.subrange(k as int, path@.len() as int)) == path_root(
                *leaf,
                idx as int,
                path@,
            ),
        decreases path@.len() - k,
    {
        let ghost rest = path@.subrange(k as int, path@.len() as int);
        proof {
            assert(rest[0] == path@[k as int]);
            assert(rest.drop_first() =~= path@.subrange(k + 1, path@.len() as int));
        }
        h = if i % 2 == 0 {
            combine(&h, &path[k])
        } else {
            combine(&path[k], &h)
        };
        i = i / 2;
        k = k + 1;
    }
    assert(path@.subrange(k as int, path@.len() as int) =~= Seq::<Digest>::empty());
    h
}

/// Whether `leaf` at position `idx` and the siblings in `proof` lead to
/// `root`: the root is recomputed along the path and compared with `root`.
/// The leaf count `size` of the tree takes no part in the check; a caller
/// that bounds the position does so itself.
#[allow(unused_variables)]
pub fn verify_merkle_proof(
    root: &Digest,
    leaf: &Digest,
    proof: &[Digest],
    idx: usize,
    size: usize,
) -> (ok: bool)
    ensures
        ok == (path_root(*leaf, idx as int, proof@) == *root),
{
    let candidate = recompute_root(leaf, idx, proof);
    digest_eq(&candidate, root)
}

/// An owned copy of a level.
fn copy_level(level: &[Digest]) -> (out: Vec<Digest>)
    ensures
        out@ == level@,
{
    let mut out: Vec<Digest> = Vec::new();
    let mut i: usize = 0;
    while i < level.len()
        invariant
            i <= level@.len(),
            out@ == level@.subrange(0, i as int),
        decreases level@.len() - i,
    {
        out.push(level[i]);
        assert(out@ =~= level@.subrange(0, i + 1));
        i = i + 1;
    }
    assert(out@ =~= level@);
    out
}

} // verus!

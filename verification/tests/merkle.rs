use zk_disorder::challenge::{derive_index, derive_indices, seed_of, SLICES, TRACE_LEN};
use zk_disorder::digest::{combine, digest_at, digest_eq, zero};
use zk_disorder::endian::{u32_from_le, u32_to_le, u64_from_le, u64_to_le};
use zk_disorder::merkle::{
    build_merkle_root, generate_merkle_proof, merkle_parents, recompute_root, verify_merkle_proof,
};
use zk_disorder::permutation::State;
use zk_disorder::trace::{commit_leaves, generate_trace, MERKLE_LEAVES};

const KEY: [u64; 2] = [0xDEADBEEFCAFEBABE, 0x123456789ABCDEF0];
const IV: [u64; 2] = [0x1111111111111111, 0x2222222222222222];

fn unhex(text: &str) -> [u8; 32] {
    let mut out = [0u8; 32];
    for i in 0..32 {
        out[i] = u8::from_str_radix(&text[2 * i..2 * i + 2], 16).unwrap();
    }
    out
}

fn numbered_leaves(count: usize) -> Vec<[u8; 32]> {
    (0..count).map(|i| State::new([i as u64, 1, 2, 3]).leaf()).collect()
}

#[test]
fn little_endian_words() {
    assert_eq!(u64_to_le(0x0102030405060708), [8, 7, 6, 5, 4, 3, 2, 1]);
    assert_eq!(u32_to_le(0x01020304), [4, 3, 2, 1]);
    let bytes = [0xAA, 8, 7, 6, 5, 4, 3, 2, 1, 0xBB];
    assert_eq!(u64_from_le(&bytes, 1), 0x0102030405060708);
    assert_eq!(u32_from_le(&bytes, 1), 0x05060708);
    assert_eq!(u64_from_le(&u64_to_le(u64::MAX - 5), 0), u64::MAX - 5);
    assert_eq!(u32_from_le(&u32_to_le(u32::MAX - 5), 0), u32::MAX - 5);
}

#[test]
fn snapshot_bytes_are_lanes_in_order() {
    let s = State::new([0x0102030405060708, 0x1112131415161718, 0x2122232425262728, 0x3132333435363738]);
    let bytes = s.to_bytes();
    assert_eq!(&bytes[0..8], &[8, 7, 6, 5, 4, 3, 2, 1]);
    assert_eq!(&bytes[8..16], &[0x18, 0x17, 0x16, 0x15, 0x14, 0x13, 0x12, 0x11]);
    assert_eq!(&bytes[16..24], &[0x28, 0x27, 0x26, 0x25, 0x24, 0x23, 0x22, 0x21]);
    assert_eq!(&bytes[24..32], &[0x38, 0x37, 0x36, 0x35, 0x34, 0x33, 0x32, 0x31]);
    assert_eq!(State::from_bytes(&bytes, 0), s);
}

#[test]
fn snapshot_is_read_at_an_offset() {
    let s = State::new([1, 2, 3, u64::MAX]);
    let mut buf = vec![0xEEu8; 3];
    buf.extend_from_slice(&s.to_bytes());
    buf.push(0xEE);
    assert_eq!(State::from_bytes(&buf, 3), s);
    assert_eq!(digest_at(&buf, 3), s.to_bytes());
}

#[test]
fn leaf_is_the_hash_of_the_snapshot_bytes() {
    let zero_state = State::new([0, 0, 0, 0]);
    assert_eq!(
        zero_state.leaf(),
        unhex("17c89ce3a6423d62dcd14b447e05721dd677eac0f63db0e363ca8a74e1d5bfbc")
    );
    assert_eq!(zero_state.leaf(), fract::Fract::hash(&[0u8; 32]));
    let s = State::new([IV[0], IV[1], KEY[0], KEY[1]]);
    assert_eq!(s.leaf(), fract::Fract::hash(&s.to_bytes()));
    assert_eq!(s.leaf(), unhex("0344554278bcf916149f27cd60449b798e0cada07268dfd4553ff64b517c439e"));
    assert_ne!(s.leaf(), s.to_bytes());
}

#[test]
fn combine_hashes_the_concatenation() {
    let zeros = zero();
    assert_eq!(zeros, [0u8; 32]);
    assert_eq!(
        combine(&zeros, &zeros),
        unhex("90bc0cdbbec9c3b0d95a99e2ebd4dd62983dc55d7bbf2a3232e8f17d456afaf4")
    );
    let a = State::new([1, 2, 3, 4]).leaf();
    let b = State::new([5, 6, 7, 8]).leaf();
    let mut both = Vec::new();
    both.extend_from_slice(&a);
    both.extend_from_slice(&b);
    assert_eq!(combine(&a, &b), fract::Fract::hash(&both));
    assert_ne!(combine(&a, &b), combine(&b, &a));
}

#[test]
fn digests_compare_by_bytes() {
    let a = State::new([1, 2, 3, 4]).leaf();
    let mut b = a;
    assert!(digest_eq(&a, &b));
    b[31] ^= 0x80;
    assert!(!digest_eq(&a, &b));
    b[31] ^= 0x80;
    b[0] ^= 1;
    assert!(!digest_eq(&a, &b));
}

#[test]
fn root_of_one_leaf_is_the_leaf() {
    let leaves = numbered_leaves(1);
    assert_eq!(build_merkle_root(&leaves), leaves[0]);
    assert!(generate_merkle_proof(&leaves, 0).is_empty());
    assert_eq!(recompute_root(&leaves[0], 0, &[]), leaves[0]);
}

#[test]
fn root_of_two_leaves_is_their_parent() {
    let leaves = numbered_leaves(2);
    assert_eq!(build_merkle_root(&leaves), combine(&leaves[0], &leaves[1]));
    assert_eq!(generate_merkle_proof(&leaves, 0), vec![leaves[1]]);
    assert_eq!(generate_merkle_proof(&leaves, 1), vec![leaves[0]]);
}

#[test]
fn odd_node_is_paired_with_itself() {
    let leaves = numbered_leaves(3);
    let left = combine(&leaves[0], &leaves[1]);
    let right = combine(&leaves[2], &leaves[2]);
    assert_eq!(merkle_parents(&leaves), vec![left, right]);
    assert_eq!(build_merkle_root(&leaves), combine(&left, &right));
    assert_eq!(generate_merkle_proof(&leaves, 2), vec![leaves[2], left]);
    assert_eq!(generate_merkle_proof(&leaves, 0), vec![leaves[1], right]);
}

#[test]
fn four_leaves_by_hand() {
    let leaves = numbered_leaves(4);
    let left = combine(&leaves[0], &leaves[1]);
    let right = combine(&leaves[2], &leaves[3]);
    let root = combine(&left, &right);
    assert_eq!(build_merkle_root(&leaves), root);
    assert_eq!(generate_merkle_proof(&leaves, 3), vec![leaves[2], left]);
    assert_eq!(recompute_root(&leaves[3], 3, &[leaves[2], left]), root);
    // The index decides the side at every level.
    assert_ne!(recompute_root(&leaves[3], 2, &[leaves[2], left]), root);
    assert_ne!(recompute_root(&leaves[3], 1, &[leaves[2], left]), root);
}

#[test]
fn every_leaf_leads_back_to_the_root() {
    let trace = generate_trace(KEY, IV);
    let leaves = commit_leaves(&trace);
    assert_eq!(leaves.len(), MERKLE_LEAVES);
    let root = build_merkle_root(&leaves);
    for i in 0..MERKLE_LEAVES {
        let path = generate_merkle_proof(&leaves, i);
        assert_eq!(path.len(), 5);
        assert_eq!(recompute_root(&leaves[i], i, &path), root);
        assert!(verify_merkle_proof(&root, &leaves[i], &path, i, MERKLE_LEAVES));
    }
}

#[test]
fn every_leaf_leads_back_to_the_root_for_any_size() {
    for count in 1..20usize {
        let leaves = numbered_leaves(count);
        let root = build_merkle_root(&leaves);
        for i in 0..count {
            let path = generate_merkle_proof(&leaves, i);
            assert_eq!(recompute_root(&leaves[i], i, &path), root);
        }
    }
}

#[test]
fn path_check_rejects_what_does_not_fit() {
    let leaves = numbered_leaves(8);
    let root = build_merkle_root(&leaves);
    let path = generate_merkle_proof(&leaves, 5);
    assert!(verify_merkle_proof(&root, &leaves[5], &path, 5, 8));
    assert!(!verify_merkle_proof(&root, &leaves[4], &path, 5, 8));
    assert!(!verify_merkle_proof(&root, &leaves[5], &path, 4, 8));
    assert!(!verify_merkle_proof(&root, &leaves[5], &path[..2], 5, 8));
    assert!(!verify_merkle_proof(&leaves[0], &leaves[5], &path, 5, 8));
    // The leaf count takes no part in the check.
    assert!(verify_merkle_proof(&root, &leaves[5], &path, 5, 5));
    assert!(verify_merkle_proof(&root, &leaves[5], &path, 5, 0));
    assert!(!verify_merkle_proof(&root, &leaves[4], &path, 5, 5));
    let mut bent = path.clone();
    bent[1][7] ^= 4;
    assert!(!verify_merkle_proof(&root, &leaves[5], &bent, 5, 8));
}

#[test]
fn empty_path_compares_the_leaf_with_the_root() {
    let root = State::new([1, 2, 3, 4]).leaf();
    let other = State::new([4, 3, 2, 1]).leaf();
    assert!(verify_merkle_proof(&root, &root, &[], 5, 3));
    assert!(verify_merkle_proof(&root, &root, &[], 0, 1));
    assert!(!verify_merkle_proof(&root, &other, &[], 5, 3));
    assert!(!verify_merkle_proof(&root, &other, &[], 0, 1));
}

#[test]
fn trace_iterates_the_permutation() {
    let trace = generate_trace(KEY, IV);
    assert_eq!(trace.len(), TRACE_LEN + 1);
    assert_eq!(trace[0], State::new([IV[0], IV[1], KEY[0], KEY[1]]));
    for i in 0..TRACE_LEN {
        let mut next = trace[i];
        next.apply_phi();
        assert_eq!(trace[i + 1], next);
    }
    assert_eq!(
        trace[16].s,
        [0xaf4429161d436ec6, 0xe0640673e463c161, 0xc9b55c0cefce0037, 0x48cfff5d6a46ee1d]
    );
}

#[test]
fn leaves_are_padded_with_zero_digests() {
    let trace = generate_trace(KEY, IV);
    let leaves = commit_leaves(&trace);
    assert_eq!(leaves.len(), 32);
    for i in 0..=TRACE_LEN {
        assert_eq!(leaves[i], trace[i].leaf());
    }
    for i in TRACE_LEN + 1..32 {
        assert_eq!(leaves[i], [0u8; 32]);
    }
    assert_eq!(
        build_merkle_root(&leaves),
        unhex("9f527b3559b8a4a83fd22bfbd044f2e37495cc536f254477e9a5495dc4a2e9ae")
    );
}

#[test]
fn indices_are_seed_words_modulo_the_limit() {
    let mut seed = [0u8; 32];
    seed[0] = 17;
    seed[8] = 0xFF;
    seed[9] = 0x01;
    seed[16] = 5;
    seed[23] = 0x80;
    seed[24] = 16;
    // Words: 17, 0x1FF, 2^63 + 5, 16.
    assert_eq!(derive_indices(&seed, 16), vec![1, 15, 5, 0]);
    assert_eq!(derive_indices(&seed, 7), vec![3, 0, ((1u64 << 63) + 5) as usize % 7, 2]);
    assert_eq!(derive_indices(&seed, 1), vec![0, 0, 0, 0]);
    for j in 0..SLICES {
        assert_eq!(derive_index(&seed, j, 16), derive_indices(&seed, 16)[j]);
    }
}

#[test]
fn indices_may_repeat() {
    let mut seed = [0u8; 32];
    seed[0] = 3;
    seed[8] = 3 + 16;
    seed[16] = 3 + 32;
    seed[24] = 3;
    assert_eq!(derive_indices(&seed, 16), vec![3, 3, 3, 3]);
}

#[test]
fn indices_are_the_same_on_every_call() {
    let root = unhex("9f527b3559b8a4a83fd22bfbd044f2e37495cc536f254477e9a5495dc4a2e9ae");
    let seed = seed_of(&root);
    assert_eq!(seed, fract::Fract::hash(&root));
    assert_eq!(seed, unhex("66ac4dbb788b2ef6059601cf9a8a9a04a37ec42c0afe137b88c7e1ccde79ca72"));
    let first = derive_indices(&seed, TRACE_LEN);
    for _ in 0..10 {
        assert_eq!(derive_indices(&seed_of(&root), TRACE_LEN), first);
    }
    assert_eq!(first, vec![6, 5, 3, 8]);
}

use zk_disorder::permutation::{rotate_left, rotate_right, State, LANE_BOUNDARY};
use zk_disorder::sponge::{FractCipher, FractSponge, ROUNDS_PER_BLOCK};

const KEY: [u64; 2] = [0xDEADBEEFCAFEBABE, 0x123456789ABCDEF0];
const IV: [u64; 2] = [0x1111111111111111, 0x2222222222222222];
const PLAINTEXT: [u64; 2] = [0xAABBCCDDEEFF0011, 0x2233445566778899];

/// A small deterministic generator, so that sampled tests repeat exactly.
fn split_mix(seed: &mut u64) -> u64 {
    *seed = seed.wrapping_add(0x9E3779B97F4A7C15);
    let mut z = *seed;
    z = (z ^ (z >> 30)).wrapping_mul(0xBF58476D1CE4E5B9);
    z = (z ^ (z >> 27)).wrapping_mul(0x94D049BB133111EB);
    z ^ (z >> 31)
}

#[test]
fn hltm_at_zero_is_zero() {
    assert_eq!(State::hltm(0), 0);
}

#[test]
fn hltm_at_one_wraps_the_negation() {
    assert_eq!(State::hltm(1), 0xFFFF_FFFF_FFFF_FFFC);
}

#[test]
fn hltm_at_the_boundary_is_zero() {
    assert_eq!(LANE_BOUNDARY, 1u64 << 63);
    assert_eq!(State::hltm(1u64 << 63), 0);
}

#[test]
fn hltm_just_above_the_boundary() {
    // 4 * (2^64 - (2^63 + 1)) * 1 = 2^65 - 4, which is 2^64 - 4 modulo 2^64.
    assert_eq!(State::hltm((1u64 << 63) + 1), 0xFFFF_FFFF_FFFF_FFFC);
}

#[test]
fn hltm_just_below_the_boundary() {
    let x = (1u64 << 63) - 1;
    let expected = x.wrapping_mul(4).wrapping_mul(0u64.wrapping_sub(x));
    assert_eq!(State::hltm(x), expected);
    assert_eq!(State::hltm(x), 0xFFFF_FFFF_FFFF_FFFC);
}

#[test]
fn hltm_small_values() {
    // 4 * 2 * (2^64 - 2) = -16, 4 * 3 * (2^64 - 3) = -36 modulo 2^64.
    assert_eq!(State::hltm(2), 0u64.wrapping_sub(16));
    assert_eq!(State::hltm(3), 0u64.wrapping_sub(36));
    assert_eq!(State::hltm(u64::MAX), 0xFFFF_FFFF_FFFF_FFFC);
}

#[test]
fn hltm_matches_wrapping_arithmetic_on_samples() {
    let mut seed = 7u64;
    for _ in 0..2000 {
        let x = split_mix(&mut seed);
        let expected = if x < (1u64 << 63) {
            x.wrapping_mul(4).wrapping_mul(0u64.wrapping_sub(x))
        } else {
            0u64.wrapping_sub(x).wrapping_mul(4).wrapping_mul(x.wrapping_sub(1u64 << 63))
        };
        assert_eq!(State::hltm(x), expected);
    }
}

#[test]
fn rotations_match_the_standard_ones() {
    let mut seed = 11u64;
    for n in 1..64u32 {
        let x = split_mix(&mut seed);
        assert_eq!(rotate_left(x, n), x.rotate_left(n));
        assert_eq!(rotate_right(x, n), x.rotate_right(n));
    }
    assert_eq!(rotate_left(1, 63), 1u64 << 63);
    assert_eq!(rotate_right(1, 1), 1u64 << 63);
}

#[test]
fn new_state_holds_its_lanes() {
    let s = State::new([1, 2, 3, 4]);
    assert_eq!(s.s, [1, 2, 3, 4]);
}

#[test]
fn phi_fixes_the_zero_state() {
    let mut s = State::new([0, 0, 0, 0]);
    s.apply_phi();
    assert_eq!(s, State::new([0, 0, 0, 0]));
}

#[test]
fn phi_on_a_single_set_bit() {
    let mut s = State::new([1, 0, 0, 0]);
    s.apply_phi();
    // Lane 0 keeps only its own map; lanes 1 and 3 receive rotated copies.
    assert_eq!(s.s, [0xFFFF_FFFF_FFFF_FFFC, 1u64 << 11, 0, 1u64 << 51]);
}

#[test]
fn phi_known_answer() {
    let mut s = State::new([IV[0], IV[1], KEY[0], KEY[1]]);
    s.apply_phi();
    assert_eq!(
        s.s,
        [0x28fda0641bce9350, 0x74deb0525a5e9aed, 0xdd1c4579c3590bdc, 0x354888cde234a353]
    );
}

#[test]
fn phi_is_injective_on_samples() {
    let mut seed = 2024u64;
    let mut outputs = std::collections::HashSet::new();
    let mut inputs = std::collections::HashSet::new();
    for _ in 0..10_000 {
        let lanes = [
            split_mix(&mut seed),
            split_mix(&mut seed),
            split_mix(&mut seed),
            split_mix(&mut seed),
        ];
        inputs.insert(lanes);
        let mut s = State::new(lanes);
        s.apply_phi();
        outputs.insert(s.s);
    }
    assert_eq!(outputs.len(), inputs.len());
}

#[test]
fn phi_has_colliding_states() {
    // The permutation is not one-to-one on the whole state space: these two
    // distinct states have the same image.
    let mut a = State::new([0x186104660000, 0x1ad130960000, 0x94d44420000, 0x9aa3d250000]);
    let mut b = State::new(
        [0x2c5add4504650000, 0x1ad167c10000, 0xc60c094df50b0000, 0x354913d30000],
    );
    assert_ne!(a, b);
    a.apply_phi();
    b.apply_phi();
    assert_eq!(a, b);
    assert_eq!(
        a.s,
        [0x58fae73a000035a2, 0x23aea85330129a88, 0xdd25c1ba0000035a, 0x89044b344b482330]
    );
}

#[test]
fn phi_is_deterministic() {
    let mut a = State::new([5, 6, 7, 8]);
    let mut b = State::new([5, 6, 7, 8]);
    a.apply_phi();
    b.apply_phi();
    assert_eq!(a, b);
    assert!(a.same(&b));
    assert!(!a.same(&State::new([5, 6, 7, 8])));
}

#[test]
fn sponge_starts_from_iv_then_key() {
    let sponge = FractSponge::new(KEY, IV);
    assert_eq!(sponge.state.s, [IV[0], IV[1], KEY[0], KEY[1]]);
}

#[test]
fn sponge_known_answer() {
    let mut sponge = FractSponge::new(KEY, IV);
    let ciphertext = sponge.encrypt(PLAINTEXT);
    assert_eq!(ciphertext, [0x7063b3d6243eb844, 0x3d44e7acc2d43316]);
    assert_eq!(
        sponge.state.s,
        [0x7063b3d6243eb844, 0x3d44e7acc2d43316, 0xac75ad7cc39c16ae, 0xb96f47976849180e]
    );
}

#[test]
fn sponge_continues_the_duplex() {
    let mut sponge = FractCipher::new(KEY, IV);
    let first = sponge.encrypt(PLAINTEXT);
    let second = sponge.encrypt(PLAINTEXT);
    assert_eq!(second, [0x93e5134a92a020c7, 0x40bf1390ff71f6e3]);
    assert_ne!(first, second);
}

#[test]
fn sponge_is_absorb_then_eight_rounds() {
    assert_eq!(ROUNDS_PER_BLOCK, 8);
    let mut sponge = FractSponge::new([9, 10], [11, 12]);
    let ciphertext = sponge.encrypt([3, 4]);
    let mut s = State::new([11 ^ 3, 12 ^ 4, 9, 10]);
    for _ in 0..8 {
        s.apply_phi();
    }
    assert_eq!(ciphertext, [s.s[0], s.s[1]]);
    assert_eq!(sponge.state, s);
}

#[test]
fn sponge_ciphertext_depends_on_the_key() {
    let mut a = FractSponge::new(KEY, IV);
    let mut b = FractSponge::new([KEY[0] ^ 1, KEY[1]], IV);
    assert_ne!(a.encrypt(PLAINTEXT), b.encrypt(PLAINTEXT));
}

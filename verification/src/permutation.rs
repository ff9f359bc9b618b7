//! The lane map, the rotation-XOR lattice and the permutation built from them.

use vstd::prelude::*;

verus! {

/// Number of 64-bit lanes in a state.
pub const STATE_SIZE: usize = 4;

/// The point at which the lane map changes branch: 2^63.
pub const LANE_BOUNDARY: u64 = 0x8000_0000_0000_0000;

/// The four lanes of a state as a mathematical tuple.
pub type Lanes = (u64, u64, u64, u64);

/// 2^64, the modulus of all lane arithmetic.
pub open spec fn word_modulus() -> int {
    0x1_0000_0000_0000_0000
}

/// The hybrid logistic/tent map on one lane.
///
/// Below the boundary it is `4 * x * (1 - x)` reduced modulo 2^64, where the
/// factor `1 - x` stands for the wrapped negation `2^64 - x` as soon as `x >= 1`.
/// From the boundary on it is `4 * (2^64 - x) * (x - 2^63)` reduced modulo 2^64.
pub open spec fn lane_map(x: u64) -> u64 {
    if x < LANE_BOUNDARY {
        let c: int = if x == 0 { 1 } else { word_modulus() - x };
        ((4 * x * c) % word_modulus()) as u64
    } else {
        ((4 * (word_modulus() - x) * (x - LANE_BOUNDARY)) % word_modulus()) as u64
    }
}

/// Left rotation of a 64-bit lane by `n` bits, `0 < n < 64`.
pub open spec fn rotl(x: u64, n: u32) -> u64
    recommends
        0 < n < 64,
{
    (x << n) | (x >> ((64 - n) as u32))
}

/// Right rotation of a 64-bit lane by `n` bits, `0 < n < 64`.
pub open spec fn rotr(x: u64, n: u32) -> u64
    recommends
        0 < n < 64,
{
    (x >> n) | (x << ((64 - n) as u32))
}

/// One round of the permutation: the lane map on each lane, combined with
/// rotated copies of two other lanes.
pub open spec fn phi(s: Lanes) -> Lanes {
    (
        lane_map(s.0) ^ rotr(s.1, 31) ^ rotl(s.3, 17),
        lane_map(s.1) ^ rotr(s.2, 23) ^ rotl(s.0, 11),
        lane_map(s.2) ^ rotr(s.3, 47) ^ rotl(s.1, 29),
        lane_map(s.3) ^ rotr(s.0, 13) ^ rotl(s.2, 5),
    )
}

/// `n` rounds of the permutation.
pub open spec fn phi_iter(s: Lanes, n: nat) -> Lanes
    decreases n,
{
    if n == 0 {
        s
    } else {
        phi(phi_iter(s, (n - 1) as nat))
    }
}

/// Rotates `x` left by `n` bits.
pub fn rotate_left(x: u64, n: u32) -> (r: u64)
    requires
        0 < n < 64,
    ensures
        r == rotl(x, n),
{
    (x << n) | (x >> (64 - n))
}

/// Rotates `x` right by `n` bits.
pub fn rotate_right(x: u64, n: u32) -> (r: u64)
    requires
        0 < n < 64,
    ensures
        r == rotr(x, n),
{
    (x >> n) | (x << (64 - n))
}

/// A snapshot of the four lanes.
#[derive(Clone, Copy, Debug, PartialEq, Eq)]
pub struct State {
    pub s: [u64; 4],
}

impl View for State {
    type V = Lanes;

    open spec fn view(&self) -> Lanes {
        (self.s[0], self.s[1], self.s[2], self.s[3])
    }
}

impl State {
    /// A state holding the given lanes.
    pub fn new(iv: [u64; 4]) -> (r: State)
        ensures
            r.s == iv,
            r@ == (iv[0], iv[1], iv[2], iv[3]),
    {
        State { s: iv }
    }

    /// The lane map.
    pub fn hltm(x: u64) -> (r: u64)
        ensures
            r == lane_map(x),
    {
        if x < LANE_BOUNDARY {
            let c = 0u64.wrapping_sub(x);
            let q = x.wrapping_mul(4);
            proof {
                let m = word_modulus();
                let ci: int = if x == 0 { 1 } else { m - x };
                if x == 0 {
                    assert(q == 0);
                } else {
                    assert(c as int == m - x);
                    assert(q as int == (x * 4) % m);
                    vstd::arithmetic::div_mod::lemma_mul_mod_noop_left(x * 4, c as int, m);
                    assert(x * 4 * c == 4 * x * ci) by (nonlinear_arith)
                        requires
                            ci == c as int,
                    ;
                }
            }
            q.wrapping_mul(c)
        } else {
            let a = 0u64.wrapping_sub(x);
            let b = x.wrapping_sub(LANE_BOUNDARY);
            let q = a.wrapping_mul(4);
            proof {
                let m = word_modulus();
                assert(a as int == m - x);
                assert(b as int == x - LANE_BOUNDARY);
                assert(q as int == (a * 4) % m);
                vstd::arithmetic::div_mod::lemma_mul_mod_noop_left(a * 4, b as int, m);
                assert(a * 4 * b == 4 * (m - x) * (x - LANE_BOUNDARY)) by (nonlinear_arith)
                    requires
                        a as int == m - x,
                        b as int == x - LANE_BOUNDARY,
                ;
            }
            q.wrapping_mul(b)
        }
    }

    /// Applies one round of the permutation in place.
    pub fn apply_phi(&mut self)
        ensures
            final(self)@ == phi(old(self)@),
    {
        let s0 = self.s[0];
        let s1 = self.s[1];
        let s2 = self.s[2];
        let s3 = self.s[3];
        let f0 = Self::hltm(s0);
        let f1 = Self::hltm(s1);
        let f2 = Self::hltm(s2);
        let f3 = Self::hltm(s3);
        self.s = [
            f0 ^ rotate_right(s1, 31) ^ rotate_left(s3, 17),
            f1 ^ rotate_right(s2, 23) ^ rotate_left(s0, 11),
            f2 ^ rotate_right(s3, 47) ^ rotate_left(s1, 29),
            f3 ^ rotate_right(s0, 13) ^ rotate_left(s2, 5),
        ];
    }
}

} // verus!

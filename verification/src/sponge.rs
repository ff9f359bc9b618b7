//! The duplex sponge cipher over the permutation.

use vstd::prelude::*;
use crate::permutation::{phi_iter, Lanes, State};

verus! {

/// Rounds of the permutation applied to each absorbed block.
pub const ROUNDS_PER_BLOCK: usize = 8;

/// The state a sponge or a trace starts from: the initialization vector in the
/// two rate lanes, the key in the two capacity lanes.
pub open spec fn seed_lanes(key: [u64; 2], iv: [u64; 2]) -> Lanes {
    (iv[0], iv[1], key[0], key[1])
}

/// The state after a 128-bit block was XORed into the rate lanes.
pub open spec fn absorb(s: Lanes, block: [u64; 2]) -> Lanes {
    (s.0 ^ block[0], s.1 ^ block[1], s.2, s.3)
}

/// The state after one block was absorbed and the permutation applied.
pub open spec fn duplex(s: Lanes, block: [u64; 2]) -> Lanes {
    phi_iter(absorb(s, block), ROUNDS_PER_BLOCK as nat)
}

/// A duplex sponge: 128 bits of rate, 128 bits of capacity.
pub struct FractSponge {
    pub state: State,
}

/// The cipher under the name its callers know it by.
pub type FractCipher = FractSponge;

impl FractSponge {
    /// A sponge seeded with `key` in the capacity and `iv` in the rate.
    pub fn new(key: [u64; 2], iv: [u64; 2]) -> (r: FractSponge)
        ensures
            r.state@ == seed_lanes(key, iv),
    {
        FractSponge { state: State::new([iv[0], iv[1], key[0], key[1]]) }
    }

    /// Absorbs one plaintext block, permutes, and squeezes the rate lanes as
    /// the ciphertext block. The sponge keeps the state for the next block.
    pub fn encrypt(&mut self, plaintext: [u64; 2]) -> (ciphertext: [u64; 2])
        ensures
            final(self).state@ == duplex(old(self).state@, plaintext),
            ciphertext[0] == final(self).state@.0,
            ciphertext[1] == final(self).state@.1,
    {
        let mut st = State::new(
            [
                self.state.s[0] ^ plaintext[0],
                self.state.s[1] ^ plaintext[1],
                self.state.s[2],
                self.state.s[3],
            ],
        );
        let ghost start = st@;
        let mut round: usize = 0;
        while round < ROUNDS_PER_BLOCK
            invariant
                round <= ROUNDS_PER_BLOCK,
                st@ == phi_iter(start, round as nat),
            decreases ROUNDS_PER_BLOCK - round,
        {
            st.apply_phi();
            round = round + 1;
        }
        self.state = st;
        [st.s[0], st.s[1]]
    }
}

} // verus!

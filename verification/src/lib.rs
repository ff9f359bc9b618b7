//! A hyperchaotic keyed permutation on four 64-bit lanes, its duplex sponge
//! cipher, and a cut-and-choose proof that the permutation was iterated
//! correctly from a seeded state.

pub mod challenge;
pub mod codec;
pub mod digest;
pub mod endian;
pub mod merkle;
pub mod permutation;
pub mod sponge;
pub mod trace;
pub mod zkproof;

pub use crate::challenge::{derive_indices, SLICES, TRACE_LEN};
pub use crate::codec::MAX_PROOF_SIZE;
pub use crate::merkle::{build_merkle_root, generate_merkle_proof, verify_merkle_proof};
pub use crate::permutation::{State, STATE_SIZE};
pub use crate::sponge::{FractCipher, FractSponge, ROUNDS_PER_BLOCK};
pub use crate::trace::MERKLE_LEAVES;
pub use crate::zkproof::{RevealedStep, ZKProof};

//! Posada Voltaire voting core: exponential ElGamal over the Ristretto group,
//! joint-Feldman distributed key generation, threshold decryption with
//! Chaum-Pedersen proofs and the Lagrange interpolation behind it,
//! Helios-style ballot validity proofs, an append-only bulletin board, the
//! homomorphic tally with its independent transcript verifier, JCJ
//! plaintext-equivalence tests, the coercer's nullifier analysis and the
//! Poseidon membership tree.
//!
//! Group and scalar arithmetic, SHA-512, hex and Poseidon come from their
//! crates (`curve25519-dalek`, `sha2`, `hex`, arkworks) behind small trusted
//! wrappers; every protocol step above them is verified.
use vstd::prelude::*;

pub mod algebra;
pub mod board;
pub mod buckets;
pub mod clock;
pub mod coercer;
pub mod dkg;
pub mod elgamal;
pub mod election;
pub mod group;
pub mod interpolation;
pub mod jcj;
pub mod tally;
pub mod text;
pub mod zk;
pub mod threshold;
pub mod validity;

verus! {

} // verus!

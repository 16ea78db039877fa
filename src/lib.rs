//! A fixed-depth, append-only binary Merkle accumulator over Stark field elements,
//! hashed with Poseidon, with inclusion proofs and an independent proof checker.

pub mod field;
pub mod helpers;
pub mod merkle;
pub mod model;

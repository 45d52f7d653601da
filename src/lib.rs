//! A Merkle commitment engine over BN254 scalar field elements, hashed with Poseidon.

pub mod field;
pub mod merkle;

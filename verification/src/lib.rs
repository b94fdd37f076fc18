//! Beholder signatures: Schnorr proofs of knowledge combined with KZG
//! polynomial commitment openings at pseudo-randomly challenged positions,
//! made non-interactive by the Fischlin transform (a proof-of-work search
//! over the challenge nonce).

pub mod codec;
pub mod commitment;
pub mod field;
pub mod fischlin;
pub mod group;
pub mod hashing;
pub mod schnorr;
pub mod util;

pub use field::Scalar;
pub use fischlin::Proof;
pub use group::Point;

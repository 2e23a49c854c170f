//! Digests, the order on them, Merkle roots and signatures.

pub mod hash;
pub mod key_pair;
pub mod merkle;

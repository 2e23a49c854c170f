//! Core of a longest-chain ledger node: the fork-aware chain store, the
//! gossip worker's message handling with its orphan buffer, and the decision
//! steps of the miner and the transaction generator.

pub mod ambient;
pub mod block;
pub mod blockchain;
pub mod chain_state;
pub mod control;
pub mod crypto;
pub mod digest_map;
pub mod encoding;
pub mod generator;
pub mod miner;
pub mod network;
pub mod transaction;

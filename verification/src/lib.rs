//! Task incentive and reward-distribution engine.
//!
//! Tracks per-wallet task completion, converts completed work into claimable
//! token rewards, and freezes each distribution epoch as a deterministic
//! Merkle snapshot from which individual wallets obtain inclusion proofs
//! ("claim tickets") for redemption on an external settlement layer.

pub mod address;
pub mod ai_config;
pub mod engine;
pub mod hashing;
pub mod merkle;
pub mod order;
pub mod types;

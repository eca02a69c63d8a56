//! A prediction-market ledger.
//!
//! Markets are propositions with enumerated outcome labels. Bettors stake
//! amounts of the native currency's smallest unit against an outcome while a
//! market is open; a market is then resolved exactly once to a single winning
//! outcome, and the entire staked pool is redistributed pro rata among the
//! bets that named that outcome. The market creator may afterwards sweep
//! whatever the rounding left behind.
//!
//! The ledger itself is pure state transitions: the caller's identity and the
//! deposit attached to a call enter through an explicit [`contract::CallContext`],
//! and settlement and withdrawal return the transfer instructions
//! (recipient, amount) for the host to execute, rather than performing
//! payments themselves.

pub mod contract;
pub mod laws;
pub mod market;
pub mod math;
pub mod settlement;

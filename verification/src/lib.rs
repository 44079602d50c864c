//! Core of a three-party semi-honest MPC engine for private attribution.
//!
//! Secret-shared event records (match keys, trigger flags, breakdown keys,
//! trigger values) are held by three helper parties as replicated shares.
//! The pipeline converts the match-key shares to per-bit arithmetic shares,
//! sorts the rows obliviously by match key, derives per-row "same user" bits,
//! accumulates trigger values onto the preceding source row, caps each user's
//! total credit, and aggregates the capped credits per breakdown key.
//!
//! The crate executes the circuit over an in-process three-party world: every
//! sub-protocol is a function over the three helpers' shares at once, so the
//! message exchange of a distributed deployment becomes plain data flow and
//! each stage carries a contract over the reconstructed values.

pub mod attribution;
pub mod basics;
pub mod boolean;
pub mod error;
pub mod ff;
pub mod ipa;
pub mod receive;
pub mod secret_sharing;
pub mod sort;
pub mod steps;

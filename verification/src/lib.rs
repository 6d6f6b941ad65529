//! A structured-blockchain state engine for a Prism-style multi-chain
//! proof-of-work protocol.
//!
//! The engine keeps a graph of proposer, voter and transaction blocks,
//! elects a leader per proposer level from voter-chain votes, and derives
//! an ordered ledger of confirmed proposer blocks from the leaders.

pub mod block;
pub mod blockchain;
pub mod config;
pub mod difficulty;
pub mod experiment;
pub mod hash;
pub mod sort;
pub mod table;
pub mod transaction;
pub mod votes;

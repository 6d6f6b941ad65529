//! Process constants of the protocol, and the genesis identifiers.

use vstd::prelude::*;
use crate::hash::H256;

verus! {

/// Number of proposer levels between two difficulty adjustments.
pub const DIFFICULTY_CHANGE_INTERVAL: u64 = 10;

/// Fixed-point scale for mining rates.
pub const RATE_SCALE: u64 = 10_000_000;

/// Target per-chain mining rate, already multiplied by `RATE_SCALE`.
pub const CHAIN_MINING_RATE_SCALED: u64 = 1_000_000;

/// The proposer genesis identifier.
pub open spec fn proposer_genesis_spec() -> H256 {
    H256 { w0: 0x70726f702d67656eu64, w1: 0u64, w2: 0u64, w3: 0u64 }
}

pub fn proposer_genesis_hash() -> (r: H256)
    ensures
        r == proposer_genesis_spec(),
{
    H256::new(0x70726f702d67656e, 0, 0, 0)
}

/// The voter genesis identifier of a chain.
pub open spec fn voter_genesis_spec(chain: u16) -> H256 {
    H256 { w0: 0x766f74652d67656eu64, w1: 0u64, w2: 0u64, w3: chain as u64 }
}

pub fn voter_genesis_hash(chain: u16) -> (r: H256)
    ensures
        r == voter_genesis_spec(chain),
{
    H256::new(0x766f74652d67656e, 0, 0, chain as u64)
}

/// The mining difficulty attached to the proposer genesis.
pub fn initial_difficulty() -> (r: H256)
    ensures
        r == (H256 { w0: 0u64, w1: 1u64, w2: 0u64, w3: 0u64 }),
{
    H256::new(0, 1, 0, 0)
}

} // verus!

//! The content of a voter block.

use vstd::prelude::*;
use crate::hash::H256;

verus! {

/// The content of a voter block: its chain, the previous block on that
/// chain, and the proposer blocks it votes for.
#[derive(Clone, Debug)]
pub struct Content {
    pub chain_number: u16,
    pub voter_parent: H256,
    pub votes: Vec<H256>,
}

impl Content {
    /// Create new voter block content.
    pub fn new(chain_number: u16, voter_parent: H256, votes: Vec<H256>) -> (r: Content)
        ensures
            r.chain_number == chain_number,
            r.voter_parent == voter_parent,
            r.votes == votes,
    {
        Content { chain_number, voter_parent, votes }
    }
}

} // verus!

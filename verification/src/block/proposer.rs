//! The content of a proposer block.

use vstd::prelude::*;
use crate::hash::H256;

verus! {

/// The content of a proposer block: the transaction blocks and the other
/// proposer blocks it cites. The proposer parent stands in the block
/// header, not here.
#[derive(Clone, Debug)]
pub struct Content {
    pub transaction_refs: Vec<H256>,
    pub proposer_refs: Vec<H256>,
}

impl Content {
    /// Create new proposer block content.
    pub fn new(transaction_refs: Vec<H256>, proposer_refs: Vec<H256>) -> (r: Content)
        ensures
            r.transaction_refs == transaction_refs,
            r.proposer_refs == proposer_refs,
    {
        Content { transaction_refs, proposer_refs }
    }
}

} // verus!

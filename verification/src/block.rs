//! Blocks as the engine sees them: an identifier, a proposer parent, a
//! timestamp, and a kind-specific content. The engine receives blocks
//! whose identifier and validity were already established by the caller's
//! validator.

pub mod proposer;
pub mod transaction;
pub mod voter;

use vstd::prelude::*;
use crate::hash::H256;

verus! {

/// The kind-specific content of a block.
#[derive(Clone, Debug)]
pub enum Content {
    Transaction(transaction::Content),
    Proposer(proposer::Content),
    Voter(voter::Content),
}

/// A validated block.
#[derive(Clone, Debug)]
pub struct Block {
    /// The 32-byte content identifier computed by the validator.
    pub hash: H256,
    /// The proposer parent.
    pub parent: H256,
    pub timestamp: u64,
    pub content: Content,
}

impl Block {
    pub fn new(hash: H256, parent: H256, timestamp: u64, content: Content) -> (r: Block)
        ensures
            r == (Block { hash, parent, timestamp, content }),
    {
        Block { hash, parent, timestamp, content }
    }
}

} // verus!

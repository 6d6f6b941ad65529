//! The content of a transaction block.

use vstd::prelude::*;
use crate::transaction::Transaction;

verus! {

/// The content of a transaction block.
#[derive(Clone, Debug)]
pub struct Content {
    pub transactions: Vec<Transaction>,
}

impl Content {
    /// Create new transaction block content.
    pub fn new(transactions: Vec<Transaction>) -> (r: Content)
        ensures
            r.transactions == transactions,
    {
        Content { transactions }
    }
}

} // verus!

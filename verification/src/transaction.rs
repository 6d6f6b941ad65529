//! Application transactions. Their contents are opaque to the chain
//! engine; only the funding constructor in `experiment` builds them.

use vstd::prelude::*;
use crate::hash::H256;

verus! {

/// A reference to a transaction output.
#[derive(PartialEq, Eq, Structural, Clone, Copy, Debug)]
pub struct CoinId {
    pub hash: H256,
    pub index: u32,
}

/// A spent coin.
#[derive(PartialEq, Eq, Structural, Clone, Copy, Debug)]
pub struct Input {
    pub coin: CoinId,
    pub value: u64,
    pub owner: H256,
}

/// A created coin.
#[derive(PartialEq, Eq, Structural, Clone, Copy, Debug)]
pub struct Output {
    pub value: u64,
    pub recipient: H256,
}

/// A signature authorizing the spending of inputs.
#[derive(Clone, Debug)]
pub struct Authorization {
    pub pubkey: Vec<u8>,
    pub signature: Vec<u8>,
}

/// An application transaction.
#[derive(Clone, Debug)]
pub struct Transaction {
    pub input: Vec<Input>,
    pub output: Vec<Output>,
    pub authorization: Vec<Authorization>,
}

} // verus!

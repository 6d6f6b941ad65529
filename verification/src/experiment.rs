//! Experiment helpers: the initial coin offering that funds a set of
//! recipients. Building the funding transaction is pure; applying it to a
//! coin database is the caller's concern.

use vstd::prelude::*;
use crate::hash::H256;
use crate::transaction::{Output, Transaction};

verus! {

/// Build the funding transaction that gives `num_coins` coins of `value`
/// worth to every recipient, in recipient order.
pub fn ico(recipients: &Vec<H256>, num_coins: usize, value: u64) -> (r: Transaction)
    requires
        recipients@.len() * num_coins <= usize::MAX,
    ensures
        r.input@.len() == 0,
        r.authorization@.len() == 0,
        r.output@.len() == recipients@.len() * num_coins,
        forall|k: int|
            0 <= k < r.output@.len() ==> r.output@[k] == (Output {
                value,
                recipient: recipients@[k / (num_coins as int)],
            }),
{
    let mut output: Vec<Output> = Vec::new();
    let n = recipients.len();
    let mut i: usize = 0;
    #[verifier::loop_isolation(false)]
    while i < n
        invariant
            0 <= i <= n,
            output@.len() == i * num_coins,
            forall|k: int|
                0 <= k < output@.len() ==> output@[k] == (Output {
                    value,
                    recipient: recipients@[k / (num_coins as int)],
                }),
        decreases n - i,
    {
        let recipient = recipients[i];
        let mut j: usize = 0;
        proof {
            assert(i * num_coins + num_coins <= n * num_coins) by (nonlinear_arith)
                requires
                    i < n,
            ;
        }
        while j < num_coins
            invariant
                i < n,
                recipient == recipients@[i as int],
                0 <= j <= num_coins,
                output@.len() == i * num_coins + j,
                forall|k: int|
                    0 <= k < output@.len() ==> output@[k] == (Output {
                        value,
                        recipient: recipients@[k / (num_coins as int)],
                    }),
            decreases num_coins - j,
        {
            proof {
                assert((i * num_coins + j) / (num_coins as int) == i) by (nonlinear_arith)
                    requires
                        0 <= j < num_coins,
                        0 <= i,
                ;
            }
            output.push(Output { value, recipient });
            j += 1;
        }
        proof {
            assert((i + 1) * num_coins == i * num_coins + num_coins) by (nonlinear_arith);
        }
        i += 1;
    }
    Transaction { input: Vec::new(), output, authorization: Vec::new() }
}

} // verus!

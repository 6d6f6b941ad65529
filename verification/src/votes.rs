//! The two merge operators of the graph store, on plain values: the
//! idempotent list-append, and the vote-set merge that adds or removes
//! `(chain, voter-level)` pairs.

use vstd::prelude::*;
use crate::hash::H256;

verus! {

/// One vote-set operand: add (`true`) or remove (`false`) a vote cast by
/// `chain` at voter level `level`.
pub type VoteOp = (bool, u16, u64);

/// The position of the first vote cast by `chain`, or `-1` if none.
pub open spec fn first_chain_index(s: Seq<(u16, u64)>, chain: u16) -> int
    decreases s.len(),
{
    if s.len() == 0 {
        -1
    } else if s[0].0 == chain {
        0
    } else {
        let r = first_chain_index(s.subrange(1, s.len() as int), chain);
        if r == -1 {
            -1
        } else {
            r + 1
        }
    }
}

pub proof fn lemma_first_chain_index(s: Seq<(u16, u64)>, chain: u16)
    ensures
        first_chain_index(s, chain) == -1 ==> forall|i: int| 0 <= i < s.len() ==> s[i].0 != chain,
        first_chain_index(s, chain) != -1 ==> {
            &&& 0 <= first_chain_index(s, chain) < s.len()
            &&& s[first_chain_index(s, chain)].0 == chain
            &&& forall|i: int| 0 <= i < first_chain_index(s, chain) ==> s[i].0 != chain
        },
    decreases s.len(),
{
    if s.len() > 0 && s[0].0 != chain {
        let sub = s.subrange(1, s.len() as int);
        lemma_first_chain_index(sub, chain);
        let f = first_chain_index(s, chain);
        if first_chain_index(sub, chain) == -1 {
            assert forall|i: int| 0 <= i < s.len() implies s[i].0 != chain by {
                if i >= 1 {
                    assert(sub[i - 1] == s[i]);
                }
            }
        } else {
            assert(sub[first_chain_index(sub, chain)] == s[f]);
            assert forall|i: int| 0 <= i < f implies s[i].0 != chain by {
                if i >= 1 {
                    assert(sub[i - 1] == s[i]);
                }
            }
        }
    }
}

/// One step of the vote-set merge. An add appends; a remove takes out the
/// first vote with a matching chain by a swap with the last element, and
/// silently skips when no vote of that chain is present.
pub open spec fn vote_step(s: Seq<(u16, u64)>, op: VoteOp) -> Seq<(u16, u64)> {
    if op.0 {
        s.push((op.1, op.2))
    } else {
        let i = first_chain_index(s, op.1);
        if i == -1 {
            s
        } else {
            s.update(i, s.last()).drop_last()
        }
    }
}

/// The vote-set merge folded over a list of operands.
pub open spec fn vote_fold(s: Seq<(u16, u64)>, ops: Seq<VoteOp>) -> Seq<(u16, u64)>
    decreases ops.len(),
{
    if ops.len() == 0 {
        s
    } else {
        vote_fold(vote_step(s, ops[0]), ops.subrange(1, ops.len() as int))
    }
}

/// Apply one vote-set operand in place.
pub fn vote_apply(s: &mut Vec<(u16, u64)>, op: VoteOp)
    ensures
        final(s)@ == vote_step(old(s)@, op),
{
    if op.0 {
        s.push((op.1, op.2));
    } else {
        proof {
            lemma_first_chain_index(s@, op.1);
        }
        let n = s.len();
        let mut i: usize = 0;
        #[verifier::loop_isolation(false)]
        while i < n
            invariant
                0 <= i <= n,
                s == old(s),
                forall|j: int| 0 <= j < i ==> s@[j].0 != op.1,
            decreases n - i,
        {
            if s[i].0 == op.1 {
                assert(first_chain_index(s@, op.1) == i) by {
                    let f = first_chain_index(s@, op.1);
                    assert(s@[i as int].0 == op.1);
                    if f < i {
                        assert(s@[f].0 == op.1);
                    }
                }
                s.swap_remove(i);
                return;
            }
            i += 1;
        }
        assert(first_chain_index(s@, op.1) == -1) by {
            let f = first_chain_index(s@, op.1);
            if f != -1 {
                assert(s@[f].0 == op.1);
            }
        }
    }
}

/// The vote-set merge operator: fold a list of add/remove operands over
/// an existing vote set, a missing value standing for the empty set.
pub fn vote_vec_merge(existing: Option<Vec<(u16, u64)>>, operands: &Vec<VoteOp>) -> (r: Vec<
    (u16, u64),
>)
    ensures
        r@ == vote_fold(
            match existing {
                Some(v) => v@,
                None => Seq::empty(),
            },
            operands@,
        ),
{
    let mut acc: Vec<(u16, u64)> = match existing {
        Some(v) => v,
        None => Vec::new(),
    };
    let n = operands.len();
    let ghost s0 = acc@;
    proof {
        assert(operands@.subrange(0, n as int) =~= operands@);
    }
    let mut i: usize = 0;
    #[verifier::loop_isolation(false)]
    while i < n
        invariant
            0 <= i <= n,
            vote_fold(s0, operands@) == vote_fold(acc@, operands@.subrange(i as int, n as int)),
        decreases n - i,
    {
        let ghost pre = acc@;
        vote_apply(&mut acc, operands[i]);
        proof {
            let rest = operands@.subrange(i as int, n as int);
            assert(rest[0] == operands@[i as int]);
            assert(rest.subrange(1, rest.len() as int) =~= operands@.subrange(
                i + 1,
                n as int,
            ));
        }
        i += 1;
    }
    proof {
        assert(operands@.subrange(n as int, n as int) =~= Seq::<VoteOp>::empty());
    }
    acc
}

/// The list-append merge operator: append each operand identifier to the
/// existing list, a missing value standing for the empty list.
pub fn h256_vec_append_merge(existing: Option<Vec<H256>>, operands: &Vec<H256>) -> (r: Vec<H256>)
    ensures
        r@ == match existing {
            Some(v) => v@ + operands@,
            None => operands@,
        },
{
    let mut acc: Vec<H256> = match existing {
        Some(v) => v,
        None => Vec::new(),
    };
    let ghost s0 = acc@;
    let n = operands.len();
    let mut i: usize = 0;
    #[verifier::loop_isolation(false)]
    while i < n
        invariant
            0 <= i <= n,
            acc@ == s0 + operands@.subrange(0, i as int),
        decreases n - i,
    {
        acc.push(operands[i]);
        proof {
            assert(s0 + operands@.subrange(0, i as int) + seq![operands@[i as int]] =~= s0
                + operands@.subrange(0, i + 1));
        }
        i += 1;
    }
    proof {
        assert(s0 + operands@.subrange(0, n as int) =~= match existing {
            Some(v) => v@ + operands@,
            None => operands@,
        });
    }
    acc
}

} // verus!

//! Difficulty retargeting. All difficulty arithmetic is unsigned 256-bit;
//! division truncates toward zero. The 256-bit division and multiplication
//! are done by the `bigint` crate through trusted wrappers; the retarget
//! rule itself is verified against an exact fixed-point specification.

use vstd::prelude::*;
use vstd::arithmetic::div_mod::{lemma_fundamental_div_mod, lemma_div_is_ordered, lemma_div_basics};
use crate::hash::{H256, h256_val};
use crate::config::{DIFFICULTY_CHANGE_INTERVAL, RATE_SCALE, CHAIN_MINING_RATE_SCALED};
use bigint::uint::U256;

verus! {

/// The largest unsigned 256-bit value.
pub open spec fn u256_max() -> nat {
    0xffffffffffffffffffffffffffffffffffffffffffffffffffffffffffffffff as nat
}

/// `x` capped at the largest 256-bit value.
pub open spec fn sat256(x: nat) -> nat {
    if x <= u256_max() {
        x
    } else {
        u256_max()
    }
}

/// Relies on `bigint`'s `U256` division operator: truncating unsigned
/// 256-bit division, which panics only on a zero divisor.
#[verifier::external_body]
fn u256_div(a: &H256, b: &H256) -> (r: H256)
    requires
        h256_val(*b) != 0,
    ensures
        h256_val(r) == h256_val(*a) / h256_val(*b),
{
    let x = U256([a.w3, a.w2, a.w1, a.w0]);
    let y = U256([b.w3, b.w2, b.w1, b.w0]);
    let q = x / y;
    H256 { w0: q.0[3], w1: q.0[2], w2: q.0[1], w3: q.0[0] }
}

/// Relies on `bigint`'s `U256::saturating_mul`: the 256-bit product,
/// capped at the largest 256-bit value on overflow.
#[verifier::external_body]
fn u256_saturating_mul(a: &H256, b: &H256) -> (r: H256)
    ensures
        h256_val(r) == sat256(h256_val(*a) * h256_val(*b)),
{
    let x = U256([a.w3, a.w2, a.w1, a.w0]);
    let y = U256([b.w3, b.w2, b.w1, b.w0]);
    let p = x.saturating_mul(y);
    H256 { w0: p.0[3], w1: p.0[2], w2: p.0[1], w3: p.0[0] }
}

/// The retargeted difficulty, as a function of the previous epoch's
/// difficulty and of the time the closed epoch took. The measured rate is
/// `(K-1) * RATE_SCALE / elapsed` (truncating); the new difficulty is the
/// old one divided by the measured rate and multiplied by the target rate,
/// clamped to `[d/2, 2*d]`. A zero elapsed time (an infinite measured
/// rate) saturates at the lower clamp; a zero measured rate saturates at
/// the upper clamp.
pub open spec fn spec_retarget(d: nat, elapsed: u64) -> nat {
    if elapsed == 0 {
        d / 2
    } else {
        let rate = (((DIFFICULTY_CHANGE_INTERVAL - 1) * RATE_SCALE) as nat) / (elapsed as nat);
        if rate == 0 {
            sat256(2 * d)
        } else {
            let nd = sat256((d / rate) * (CHAIN_MINING_RATE_SCALED as nat));
            if nd < d {
                if nd >= d / 2 {
                    nd
                } else {
                    d / 2
                }
            } else {
                if nd <= sat256(2 * d) {
                    nd
                } else {
                    sat256(2 * d)
                }
            }
        }
    }
}

/// Compute the retargeted difficulty.
pub fn retarget_difficulty(prev: &H256, elapsed: u64) -> (r: H256)
    ensures
        h256_val(r) == spec_retarget(h256_val(*prev), elapsed),
{
    let two = H256::from_low(2);
    if elapsed == 0 {
        return u256_div(prev, &two);
    }
    let rate: u64 = ((DIFFICULTY_CHANGE_INTERVAL - 1) * RATE_SCALE) / elapsed;
    if rate == 0 {
        return u256_saturating_mul(prev, &two);
    }
    let q = u256_div(prev, &H256::from_low(rate));
    let nd = u256_saturating_mul(&q, &H256::from_low(CHAIN_MINING_RATE_SCALED));
    proof {
        assert(2 * h256_val(*prev) == h256_val(*prev) * 2);
    }
    if nd.lt(prev) {
        let half = u256_div(prev, &two);
        if nd.lt(&half) {
            half
        } else {
            nd
        }
    } else {
        let double = u256_saturating_mul(prev, &two);
        if double.lt(&nd) {
            double
        } else {
            nd
        }
    }
}

/// If the measured rate of the closed epoch equals the target rate
/// exactly, retargeting leaves the difficulty unchanged up to division
/// truncation: the new value lies in `(d - rate, d]`.
pub proof fn lemma_retarget_steady(d: nat, elapsed: u64)
    requires
        elapsed != 0,
        (((DIFFICULTY_CHANGE_INTERVAL - 1) * RATE_SCALE) as nat) / (elapsed as nat)
            == CHAIN_MINING_RATE_SCALED as nat,
        2 * (CHAIN_MINING_RATE_SCALED as nat) <= d,
        d <= u256_max(),
    ensures
        d - CHAIN_MINING_RATE_SCALED < spec_retarget(d, elapsed) <= d,
{
    let r = CHAIN_MINING_RATE_SCALED as nat;
    lemma_fundamental_div_mod(d as int, r as int);
    assert(d == r * (d / r) + d % r);
    let nd0 = (d / r) * r;
    assert(nd0 == d - d % r);
    assert(nd0 <= d);
    assert(d - r < nd0);
    assert(nd0 <= u256_max());
    assert(sat256(nd0) == nd0);
    assert(spec_retarget(d, elapsed) == if nd0 < d {
        if nd0 >= d / 2 {
            nd0
        } else {
            d / 2
        }
    } else {
        if nd0 <= sat256(2 * d) {
            nd0
        } else {
            sat256(2 * d)
        }
    });
    if nd0 < d {
        assert(2 * r <= d);
        assert(d % r < r);
        lemma_div_is_ordered(2 * r as int, d as int, 2);
        assert((2 * r) / 2 == r) by (nonlinear_arith);
        assert(d / 2 >= r);
        assert(nd0 >= d / 2) by {
            lemma_fundamental_div_mod(d as int, 2);
            assert(d % 2 < 2);
            assert(d / 2 * 2 + 2 > d);
            assert(nd0 > d - r);
            assert(d / 2 <= d - r) by {
                assert(d >= 2 * r);
                assert(d - d / 2 >= r) by {
                    assert(2 * (d / 2) <= d);
                }
            }
        }
    }
}

} // verus!

//! 32-byte block identifiers, stored as four 64-bit words in big-endian
//! word order. The numeric interpretation (for difficulty comparisons)
//! treats the value as an unsigned 256-bit big-endian integer.

use vstd::prelude::*;

verus! {

/// A 256-bit content identifier. `w0` holds the most significant 64 bits.
#[derive(PartialEq, Eq, Structural, Clone, Copy, Hash, Debug)]
pub struct H256 {
    pub w0: u64,
    pub w1: u64,
    pub w2: u64,
    pub w3: u64,
}

/// The numeric value of an identifier, read big-endian.
pub open spec fn h256_val(h: H256) -> nat {
    (h.w0 * 0x1000000000000000000000000000000000000000000000000
        + h.w1 * 0x100000000000000000000000000000000
        + h.w2 * 0x10000000000000000
        + h.w3) as nat
}

impl H256 {
    /// Build an identifier from its four big-endian words.
    pub fn new(w0: u64, w1: u64, w2: u64, w3: u64) -> (r: H256)
        ensures
            r == (H256 { w0, w1, w2, w3 }),
    {
        H256 { w0, w1, w2, w3 }
    }

    /// An identifier whose value is the given small integer.
    pub fn from_low(n: u64) -> (r: H256)
        ensures
            r == (H256 { w0: 0u64, w1: 0u64, w2: 0u64, w3: n }),
            h256_val(r) == n,
    {
        H256 { w0: 0, w1: 0, w2: 0, w3: n }
    }

    /// The all-zero identifier.
    pub fn zero() -> (r: H256)
        ensures
            r == (H256 { w0: 0u64, w1: 0u64, w2: 0u64, w3: 0u64 }),
            h256_val(r) == 0,
    {
        H256 { w0: 0, w1: 0, w2: 0, w3: 0 }
    }

    /// Numeric comparison: `self < other` as 256-bit big-endian integers.
    pub fn lt(&self, other: &H256) -> (r: bool)
        ensures
            r == (h256_val(*self) < h256_val(*other)),
    {
        proof {
            lemma_h256_val_order(*self, *other);
        }
        if self.w0 != other.w0 {
            self.w0 < other.w0
        } else if self.w1 != other.w1 {
            self.w1 < other.w1
        } else if self.w2 != other.w2 {
            self.w2 < other.w2
        } else {
            self.w3 < other.w3
        }
    }
}

/// Lexicographic word order agrees with the numeric order.
proof fn lemma_h256_val_order(a: H256, b: H256)
    ensures
        (h256_val(a) < h256_val(b)) == if a.w0 != b.w0 {
            a.w0 < b.w0
        } else if a.w1 != b.w1 {
            a.w1 < b.w1
        } else if a.w2 != b.w2 {
            a.w2 < b.w2
        } else {
            a.w3 < b.w3
        },
{
    assert((h256_val(a) < h256_val(b)) == if a.w0 != b.w0 {
        a.w0 < b.w0
    } else if a.w1 != b.w1 {
        a.w1 < b.w1
    } else if a.w2 != b.w2 {
        a.w2 < b.w2
    } else {
        a.w3 < b.w3
    }) by (nonlinear_arith);
}

} // verus!

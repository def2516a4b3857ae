//! Integer square root, the numeric kernel of the keyboard-geometry costs.
//!
//! All costs in this crate are fixed-point numbers: an integer counting
//! thousandths of a cost unit.  The geometric key distances need a square
//! root, which is computed here as the exact floor of the real square root.

use vstd::prelude::*;

verus! {

/// The floor of the real square root of `x`: the largest `r` with `r * r <= x`.
pub open spec fn sqrt_floor(x: nat) -> nat
    decreases x,
{
    if x == 0 {
        0
    } else {
        let s = sqrt_floor((x - 1) as nat);
        if (s + 1) * (s + 1) <= x {
            s + 1
        } else {
            s
        }
    }
}

/// `sqrt_floor` satisfies the two-sided bound that characterises it.
pub proof fn lemma_sqrt_floor_bounds(x: nat)
    ensures
        sqrt_floor(x) * sqrt_floor(x) <= x,
        x < (sqrt_floor(x) + 1) * (sqrt_floor(x) + 1),
    decreases x,
{
    if x == 0 {
        assert(sqrt_floor(x) == 0);
        assert(sqrt_floor(x) * sqrt_floor(x) <= x && x < (sqrt_floor(x) + 1) * (sqrt_floor(x)
            + 1)) by (nonlinear_arith)
            requires
                sqrt_floor(x) == 0,
                x == 0,
        ;
    } else {
        lemma_sqrt_floor_bounds((x - 1) as nat);
        let s = sqrt_floor((x - 1) as nat);
        if (s + 1) * (s + 1) <= x {
            assert(sqrt_floor(x) == s + 1);
            assert(sqrt_floor(x) * sqrt_floor(x) <= x && x < (sqrt_floor(x) + 1) * (sqrt_floor(x)
                + 1)) by (nonlinear_arith)
                requires
                    sqrt_floor(x) == s + 1,
                    (s + 1) * (s + 1) <= x,
                    x - 1 < (s + 1) * (s + 1),
            ;
        } else {
            assert(sqrt_floor(x) == s);
            assert(sqrt_floor(x) * sqrt_floor(x) <= x && x < (sqrt_floor(x) + 1) * (sqrt_floor(x)
                + 1)) by (nonlinear_arith)
                requires
                    sqrt_floor(x) == s,
                    s * s <= x - 1,
                    !((s + 1) * (s + 1) <= x),
                    x >= 1,
            ;
        }
    }
}

/// Any `r` within the two-sided bound is `sqrt_floor(x)`: the floor square
/// root is unique.
pub proof fn lemma_sqrt_floor_unique(x: nat, r: nat)
    requires
        r * r <= x,
        x < (r + 1) * (r + 1),
    ensures
        r == sqrt_floor(x),
{
    lemma_sqrt_floor_bounds(x);
    let s = sqrt_floor(x);
    assert(r == s) by (nonlinear_arith)
        requires
            r * r <= x,
            x < (r + 1) * (r + 1),
            s * s <= x,
            x < (s + 1) * (s + 1),
    ;
}

/// The floor square root is monotone.
pub proof fn lemma_sqrt_floor_monotone(x: nat, y: nat)
    requires
        x <= y,
    ensures
        sqrt_floor(x) <= sqrt_floor(y),
{
    lemma_sqrt_floor_bounds(x);
    lemma_sqrt_floor_bounds(y);
    let s = sqrt_floor(x);
    let t = sqrt_floor(y);
    assert(s <= t) by (nonlinear_arith)
        requires
            s * s <= x,
            x <= y,
            y < (t + 1) * (t + 1),
    ;
}

/// An upper bound on the input gives an upper bound on the root.
pub proof fn lemma_sqrt_floor_upper(x: nat, b: nat)
    requires
        x < b * b,
    ensures
        sqrt_floor(x) < b,
{
    lemma_sqrt_floor_bounds(x);
    let s = sqrt_floor(x);
    assert(s < b) by (nonlinear_arith)
        requires
            s * s <= x,
            x < b * b,
    ;
}

/// Exact floor square root of a 64-bit integer, by binary search.
pub fn isqrt(x: u64) -> (r: u64)
    ensures
        r == sqrt_floor(x as nat),
{
    let mut lo: u64 = 0;
    let mut hi: u64 = 4294967296;
    proof {
        assert((0 as nat) * (0 as nat) <= x as nat && (x as nat) < (4294967296 as nat) * (
        4294967296 as nat)) by (nonlinear_arith)
            requires
                (x as nat) < 18446744073709551616nat,
        ;
    }
    while lo + 1 < hi
        invariant
            lo < hi <= 4294967296,
            (lo as nat) * (lo as nat) <= x as nat,
            (x as nat) < (hi as nat) * (hi as nat),
        decreases hi - lo,
    {
        let mid: u64 = lo + (hi - lo) / 2;
        assert(lo <= mid < hi);
        proof {
            assert((mid as nat) * (mid as nat) < 18446744073709551616nat) by (nonlinear_arith)
                requires
                    (mid as nat) < 4294967296nat,
            ;
        }
        if mid * mid <= x {
            lo = mid;
        } else {
            hi = mid;
        }
    }
    proof {
        assert((x as nat) < ((lo as nat) + 1) * ((lo as nat) + 1)) by (nonlinear_arith)
            requires
                (x as nat) < (hi as nat) * (hi as nat),
                hi == lo + 1,
        ;
        lemma_sqrt_floor_unique(x as nat, lo as nat);
    }
    lo
}

} // verus!

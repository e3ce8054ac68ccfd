//! Fixed-point numbers used throughout the search.
//!
//! A probability or value in [0, 1] is stored as a `u64` scaled by `UNIT`
//! (so `UNIT` is 1.0 and `HALF` is 0.5).  This module also provides the
//! integer square root that the exploration term of the selection formula
//! needs.

use vstd::prelude::*;

verus! {

/// The fixed-point representation of 1.0: values and priors live in [0, UNIT].
pub const UNIT: u64 = 65536;

/// The fixed-point representation of 0.5.
pub const HALF: u64 = 32768;

/// Hard cap on a node's visit count; `select` reports exhaustion rather than
/// exceed it, which keeps every accumulator far from `u64` overflow.
pub const VISIT_CAP: u64 = 0x100_0000_0000;

/// Hard cap on the arena capacity a configuration may ask for.
pub const CAP_MAX: usize = 0x4000_0000;

/// Hard cap on how many legal moves the game oracle may report for one
/// position.
pub const MAX_MOVES: usize = 65536;

/// Hard cap on the exploration constant (fixed point, so up to 256.0).
pub const EXPLORATION_MAX: u64 = 0x100_0000;

/// The integer square root: the largest `r` with `r * r <= x`.
pub fn isqrt(x: u64) -> (r: u64)
    ensures
        r * r <= x,
        (r + 1) * (r + 1) > x,
{
    let mut lo: u64 = 0;
    let mut hi: u64 = 0x1_0000_0000;
    while lo + 1 < hi
        invariant
            lo < hi,
            hi <= 0x1_0000_0000,
            lo * lo <= x,
            hi * hi > x,
        decreases hi - lo,
    {
        let mid: u64 = lo + (hi - lo) / 2;
        proof {
            assert((mid as int) * (mid as int) <= 0x1_0000_0000_0000_0000) by (nonlinear_arith)
                requires
                    0 <= mid as int,
                    mid as int <= 0x1_0000_0000,
            ;
        }
        if (mid as u128) * (mid as u128) <= x as u128 {
            lo = mid;
        } else {
            hi = mid;
        }
    }
    lo
}

/// `sqrt(v)` in fixed point (scaled by `UNIT`, with eight fractional
/// bits of precision), for the exploration term.
pub fn sqrt_scaled(v: u64) -> (r: u64)
    requires
        v <= VISIT_CAP,
    ensures
        r <= 0x10_0000_0000,
        r == isqrt_val(v * 65536) * 256,
{
    let x: u64 = v * 65536;
    let root: u64 = isqrt(x);
    proof {
        assert(root <= 0x1000_0000) by (nonlinear_arith)
            requires
                root * root <= x,
                x <= 0x100_0000_0000_0000,
        ;
        lemma_isqrt_unique(root as int, x as int);
    }
    root * 256
}

/// The mathematical integer square root, as a fixed function of its argument.
pub open spec fn isqrt_val(x: int) -> int {
    choose|r: int| 0 <= r && #[trigger] (r * r) <= x && (r + 1) * (r + 1) > x
}

/// Any `r` in the integer-square-root range of `x` is `isqrt_val(x)`:
/// the characterisation `r^2 <= x < (r+1)^2` has exactly one solution.
pub proof fn lemma_isqrt_unique(r: int, x: int)
    requires
        0 <= r,
        r * r <= x,
        (r + 1) * (r + 1) > x,
    ensures
        isqrt_val(x) == r,
{
    let s = choose|s: int| 0 <= s && #[trigger] (s * s) <= x && (s + 1) * (s + 1) > x;
    assert(0 <= r && r * r <= x && (r + 1) * (r + 1) > x);
    if s < r {
        assert((s + 1) * (s + 1) <= r * r) by (nonlinear_arith)
            requires
                0 <= s,
                s < r,
        ;
    } else if r < s {
        assert((r + 1) * (r + 1) <= s * s) by (nonlinear_arith)
            requires
                0 <= r,
                r < s,
        ;
    }
}

} // verus!

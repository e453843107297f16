//! Integer square-root arithmetic used by the distance functions.

use vstd::prelude::*;

verus! {

/// `r` is the floor of the square root of `n`.
pub open spec fn is_floor_sqrt(n: int, r: int) -> bool {
    r >= 0 && r * r <= n && n < (r + 1) * (r + 1)
}

/// Floor square root, found by searching downward from candidate `c`.
pub open spec fn fsq(n: int, c: int) -> int
    decreases c,
{
    if c <= 0 {
        0
    } else if c * c <= n {
        c
    } else {
        fsq(n, c - 1)
    }
}

/// Floor square root of a non-negative integer.
pub open spec fn floor_sqrt(n: int) -> int {
    fsq(n, n)
}

pub proof fn lemma_fsq_is_floor_sqrt(n: int, c: int)
    requires
        0 <= n,
        0 <= c,
        n < (c + 1) * (c + 1),
    ensures
        is_floor_sqrt(n, fsq(n, c)),
    decreases c,
{
    if c <= 0 {
        assert(fsq(n, c) == 0);
    } else if c * c <= n {
    } else {
        lemma_fsq_is_floor_sqrt(n, c - 1);
    }
}

/// `floor_sqrt(n)` really is the floor of the square root of `n`.
pub proof fn lemma_floor_sqrt(n: int)
    requires
        0 <= n,
    ensures
        is_floor_sqrt(n, floor_sqrt(n)),
{
    assert(n < (n + 1) * (n + 1)) by (nonlinear_arith);
    lemma_fsq_is_floor_sqrt(n, n);
}

/// The floor square root is unique.
pub proof fn lemma_floor_sqrt_unique(n: int, r: int)
    requires
        is_floor_sqrt(n, r),
    ensures
        r == floor_sqrt(n),
{
    lemma_floor_sqrt(n);
    let f = floor_sqrt(n);
    if r < f {
        assert((r + 1) * (r + 1) <= f * f) by (nonlinear_arith)
            requires
                0 <= r,
                r + 1 <= f,
        ;
    }
    if f < r {
        assert((f + 1) * (f + 1) <= r * r) by (nonlinear_arith)
            requires
                0 <= f,
                f + 1 <= r,
        ;
    }
}

/// Monotonicity: any `r` whose square is at most `n` is at most `floor_sqrt(n)`.
pub proof fn lemma_floor_sqrt_at_least(n: int, r: int)
    requires
        0 <= r,
        r * r <= n,
    ensures
        r <= floor_sqrt(n),
{
    lemma_floor_sqrt(n);
    let f = floor_sqrt(n);
    if f < r {
        assert((f + 1) * (f + 1) <= r * r) by (nonlinear_arith)
            requires
                0 <= f,
                f + 1 <= r,
        ;
    }
}

/// Binary-search integer square root.
pub fn isqrt(x: u128) -> (r: u64)
    requires
        x < 0x4000_0000_0000_0000_0000_0000_0000_0000u128,
    ensures
        r as int == floor_sqrt(x as int),
{
    let mut lo: u64 = 0;
    let mut hi: u64 = 0x8000_0000_0000_0000;
    assert((hi as int) * (hi as int) == 0x4000_0000_0000_0000_0000_0000_0000_0000int)
        by (nonlinear_arith)
        requires
            hi == 0x8000_0000_0000_0000u64,
    ;
    while hi - lo > 1
        invariant
            lo < hi,
            hi <= 0x8000_0000_0000_0000u64,
            (lo as int) * (lo as int) <= x as int,
            (x as int) < (hi as int) * (hi as int),
        decreases hi - lo,
    {
        let mid: u64 = lo + (hi - lo) / 2;
        proof {
            assert((mid as int) * (mid as int) <= 0x4000_0000_0000_0000_0000_0000_0000_0000int)
                by (nonlinear_arith)
                requires
                    0 <= mid as int <= 0x8000_0000_0000_0000int,
            ;
        }
        let sq: u128 = (mid as u128) * (mid as u128);
        if sq <= x {
            lo = mid;
        } else {
            hi = mid;
        }
    }
    proof {
        lemma_floor_sqrt_unique(x as int, lo as int);
    }
    lo
}

} // verus!

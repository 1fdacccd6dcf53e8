//! Integer square root, with a specification-level definition and a
//! binary-search implementation proved against it.

use vstd::prelude::*;

verus! {

/// `r` is the integer square root of `m`: the unique nonnegative integer
/// whose square is at most `m` while the next square is beyond it.
pub open spec fn is_isqrt(r: int, m: int) -> bool {
    &&& 0 <= r
    &&& r * r <= m
    &&& m < (r + 1) * (r + 1)
}

/// The integer square root of `m` (meaningful for `m >= 0`).
pub open spec fn isqrt(m: int) -> int {
    choose|r: int| #[trigger] is_isqrt(r, m)
}

/// Every nonnegative integer has an integer square root.
pub proof fn lemma_isqrt_exists(m: int)
    requires
        0 <= m,
    ensures
        exists|r: int| #[trigger] is_isqrt(r, m),
    decreases m,
{
    if m == 0 {
        assert(is_isqrt(0, 0));
    } else {
        lemma_isqrt_exists(m - 1);
        let r = choose|r: int| #[trigger] is_isqrt(r, m - 1);
        if m < (r + 1) * (r + 1) {
            assert(is_isqrt(r, m));
        } else {
            assert(m == (r + 1) * (r + 1));
            assert((r + 1) * (r + 1) < (r + 2) * (r + 2)) by (nonlinear_arith)
                requires 0 <= r;
            assert(is_isqrt(r + 1, m));
        }
    }
}

/// The integer square root is unique.
pub proof fn lemma_isqrt_unique(r1: int, r2: int, m: int)
    by (nonlinear_arith)
    requires
        is_isqrt(r1, m),
        is_isqrt(r2, m),
    ensures
        r1 == r2,
{
}

/// A witness of `is_isqrt` is what `isqrt` denotes.
pub proof fn lemma_isqrt_is(r: int, m: int)
    requires
        is_isqrt(r, m),
    ensures
        isqrt(m) == r,
{
    assert(exists|s: int| #[trigger] is_isqrt(s, m));
    lemma_isqrt_unique(isqrt(m), r, m);
}

/// `isqrt(m)` itself satisfies the defining property.
pub proof fn lemma_isqrt_bounds(m: int)
    requires
        0 <= m,
    ensures
        is_isqrt(isqrt(m), m),
{
    lemma_isqrt_exists(m);
}

/// Binary-search integer square root over the full `u128` range.
pub fn isqrt_u128(m: u128) -> (r: u128)
    ensures
        r == isqrt(m as int),
        is_isqrt(r as int, m as int),
{
    let mut lo: u128 = 0;
    let mut hi: u128 = 0x10000000000000000;
    proof {
        assert((m as int) < (hi as int) * (hi as int)) by (nonlinear_arith)
            requires m <= u128::MAX && hi == 0x10000000000000000u128;
    }
    while lo + 1 < hi
        invariant
            lo < hi,
            hi <= 0x10000000000000000u128,
            (lo as int) * (lo as int) <= m as int,
            (m as int) < (hi as int) * (hi as int),
        decreases hi - lo,
    {
        let mid: u128 = lo + (hi - lo) / 2;
        proof {
            assert((mid as int) * (mid as int) <= u128::MAX) by (nonlinear_arith)
                requires (mid as int) < 0x10000000000000000;
        }
        let sq: u128 = mid * mid;
        if sq <= m {
            lo = mid;
        } else {
            hi = mid;
        }
    }
    proof {
        lemma_isqrt_is(lo as int, m as int);
    }
    lo
}

} // verus!

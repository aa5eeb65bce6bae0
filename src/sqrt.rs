//! Integer square roots, rounded down and rounded up.
use vstd::prelude::*;

verus! {

pub open spec fn is_floor_sqrt(n: int, r: int) -> bool {
    0 <= r && r * r <= n < (r + 1) * (r + 1)
}

pub open spec fn is_ceil_sqrt(n: int, r: int) -> bool {
    0 <= r && n <= r * r && (r == 0 || (r - 1) * (r - 1) < n)
}

/// The largest integer whose square is at most `n`.
pub open spec fn floor_sqrt_of(n: int) -> int {
    choose|r: int| is_floor_sqrt(n, r)
}

/// The smallest non-negative integer whose square is at least `n`.
pub open spec fn ceil_sqrt_of(n: int) -> int {
    choose|r: int| is_ceil_sqrt(n, r)
}

proof fn lemma_square_monotone(a: int, b: int)
    requires
        0 <= a <= b,
    ensures
        a * a <= b * b,
{
    assert(a * a <= b * b) by (nonlinear_arith)
        requires
            0 <= a <= b,
    ;
}

pub proof fn lemma_floor_sqrt_unique(n: int, r: int, s: int)
    requires
        is_floor_sqrt(n, r),
        is_floor_sqrt(n, s),
    ensures
        r == s,
{
    if r < s {
        lemma_square_monotone(r + 1, s);
    } else if s < r {
        lemma_square_monotone(s + 1, r);
    }
}

pub proof fn lemma_ceil_sqrt_unique(n: int, r: int, s: int)
    requires
        is_ceil_sqrt(n, r),
        is_ceil_sqrt(n, s),
    ensures
        r == s,
{
    if r < s {
        lemma_square_monotone(r, s - 1);
    } else if s < r {
        lemma_square_monotone(s, r - 1);
    }
}

/// Square root of `n`, rounded down.
pub fn floor_sqrt(n: u128) -> (r: u64)
    ensures
        is_floor_sqrt(n as int, r as int),
        r as int == floor_sqrt_of(n as int),
{
    let mut lo: u128 = 0;
    let mut hi: u128 = 0x1_0000_0000_0000_0000;
    assert(n < hi * hi);
    while hi - lo > 1
        invariant
            lo < hi <= 0x1_0000_0000_0000_0000,
            lo * lo <= n < hi * hi,
        decreases hi - lo,
    {
        let mid: u128 = lo + (hi - lo) / 2;
        assert(mid * mid <= 0xffff_ffff_ffff_ffff * 0xffff_ffff_ffff_ffff) by {
            lemma_square_monotone(mid as int, 0xffff_ffff_ffff_ffff);
        }
        if mid * mid <= n {
            lo = mid;
        } else {
            hi = mid;
        }
    }
    proof {
        assert(hi == lo + 1);
        assert(is_floor_sqrt(n as int, lo as int));
        lemma_floor_sqrt_unique(n as int, lo as int, floor_sqrt_of(n as int));
    }
    lo as u64
}

/// Square root of `n`, rounded up.
pub fn ceil_sqrt(n: u128) -> (r: u128)
    ensures
        is_ceil_sqrt(n as int, r as int),
        r as int == ceil_sqrt_of(n as int),
        r <= 0x1_0000_0000_0000_0000,
{
    let f: u64 = floor_sqrt(n);
    let f2: u128 = f as u128 * f as u128;
    let r: u128 = if f2 == n {
        f as u128
    } else {
        f as u128 + 1
    };
    proof {
        if f2 == n && f > 0 {
            assert((f - 1) * (f - 1) < f * f) by (nonlinear_arith)
                requires
                    f >= 1,
            ;
        }
        assert(is_ceil_sqrt(n as int, r as int));
        lemma_ceil_sqrt_unique(n as int, r as int, ceil_sqrt_of(n as int));
    }
    r
}

} // verus!

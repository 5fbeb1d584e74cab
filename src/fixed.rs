//! Fixed-point helpers shared by the pipeline.

use vstd::prelude::*;

verus! {

/// One unit of object space (and of depth, cosine and sine) in fixed point.
pub const UNIT: i64 = 1_000_000;

/// The square of [`UNIT`]: one unit of a product of two fixed-point values.
pub const UNIT_SQ: i128 = 1_000_000_000_000;

/// Quotient rounded toward zero, as integer division does on machine words.
pub open spec fn trunc_div(n: int, d: int) -> int {
    if n >= 0 {
        n / d
    } else {
        -((-n) / d)
    }
}

/// Quotient rounded toward zero, for a positive divisor.
pub fn div_toward_zero(n: i128, d: i128) -> (q: i128)
    requires
        d > 0,
        n > i128::MIN,
    ensures
        q == trunc_div(n as int, d as int),
{
    if n >= 0 {
        n / d
    } else {
        -((-n) / d)
    }
}

/// Quotient rounded toward negative infinity (Euclidean for a positive divisor).
pub fn div_floor(n: i128, d: i128) -> (q: i128)
    requires
        d > 0,
        n > i128::MIN + d,
    ensures
        q == n as int / d as int,
{
    if n >= 0 {
        n / d
    } else {
        let m = -n;
        let q = (m + d - 1) / d;
        proof {
            let qi = (m + d - 1) as int / d as int;
            let ri = (m + d - 1) as int % d as int;
            assert((m + d - 1) as int == d * qi + ri) by (nonlinear_arith)
                requires
                    d > 0,
                    qi == (m + d - 1) as int / d as int,
                    ri == (m + d - 1) as int % d as int,
            ;
            assert(n as int == d * (-qi) + (d - 1 - ri)) by (nonlinear_arith)
                requires
                    (m + d - 1) as int == d * qi + ri,
                    n == -m,
            ;
            assert(0 <= ri < d) by (nonlinear_arith)
                requires
                    d > 0,
                    ri == (m + d - 1) as int % d as int,
            ;
            vstd::arithmetic::div_mod::lemma_fundamental_div_mod_converse(
                n as int,
                d as int,
                -qi,
                d - 1 - ri,
            );
        }
        -q
    }
}

/// `r` is the integer square root of `n`.
pub open spec fn is_root(n: int, r: int) -> bool {
    0 <= r && r * r <= n && n < (r + 1) * (r + 1)
}

/// The integer square root of `n`.
pub open spec fn root(n: nat) -> int {
    choose|r: int| is_root(n as int, r)
}

proof fn lemma_root_unique(n: int, r: int, s: int)
    requires
        is_root(n, r),
        is_root(n, s),
    ensures
        r == s,
{
    if r < s {
        assert((r + 1) * (r + 1) <= s * s) by (nonlinear_arith)
            requires
                0 <= r < s,
        ;
    } else if s < r {
        assert((s + 1) * (s + 1) <= r * r) by (nonlinear_arith)
            requires
                0 <= s < r,
        ;
    }
}

/// Floor of the square root of `n`, found by bisection.
pub fn isqrt(n: u128) -> (r: u128)
    requires
        n < 0x8000_0000_0000_0000_0000_0000_0000_0000u128,
    ensures
        is_root(n as int, r as int),
        r as int == root(n as nat),
{
    let mut lo: u128 = 0;
    let mut hi: u128 = 0xC000_0000_0000_0000u128;
    assert(n < hi * hi) by (nonlinear_arith)
        requires
            n < 0x8000_0000_0000_0000_0000_0000_0000_0000u128,
            hi == 0xC000_0000_0000_0000u128,
    ;
    while hi - lo > 1
        invariant
            lo < hi <= 0xC000_0000_0000_0000u128,
            lo * lo <= n,
            n < hi * hi,
        decreases hi - lo,
    {
        let mid = lo + (hi - lo) / 2;
        assert(mid * mid <= 0xC000_0000_0000_0000u128 * 0xC000_0000_0000_0000u128)
            by (nonlinear_arith)
            requires
                mid < 0xC000_0000_0000_0000u128,
        ;
        if mid * mid <= n {
            lo = mid;
        } else {
            hi = mid;
        }
    }
    assert(hi == lo + 1);
    proof {
        assert(is_root(n as int, lo as int));
        let r = root(n as nat);
        assert(is_root(n as int, r));
        lemma_root_unique(n as int, lo as int, r);
    }
    lo
}

} // verus!

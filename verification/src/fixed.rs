//! Fixed-point scalars: integers that count millionths.
//!
//! Every length, coordinate, direction component and index of refraction is
//! an integer number of millionths. Quotients are rounded toward zero, so a
//! computation and its mirror image round alike, and square roots are rounded
//! down.

use vstd::prelude::*;

verus! {

/// The integer that stands for the number one.
pub const UNIT: i64 = 1_000_000;

/// The quotient of `n` by a positive `d`, rounded toward zero.
pub open spec fn div_trunc(n: int, d: int) -> int
    recommends
        d > 0,
{
    if n >= 0 {
        n / d
    } else {
        -((-n) / d)
    }
}

/// The quotient of `n` by a non-zero `d`, rounded toward zero.
pub open spec fn quotient(n: int, d: int) -> int
    recommends
        d != 0,
{
    if d > 0 {
        div_trunc(n, d)
    } else {
        div_trunc(-n, -d)
    }
}

/// `r` is the square root of `n`, rounded down.
pub open spec fn is_isqrt(n: int, r: int) -> bool {
    0 <= r && r * r <= n < (r + 1) * (r + 1)
}

/// The square root of a non-negative `n`, rounded down.
pub open spec fn isqrt(n: int) -> int
    recommends
        n >= 0,
{
    choose|r: int| is_isqrt(n, r)
}

/// What is left of `n` after `div_trunc(n, d)` times `d` is smaller than `d`
/// and has the sign of `n`.
pub proof fn lemma_div_trunc_remainder(n: int, d: int)
    requires
        d > 0,
    ensures
        n >= 0 ==> 0 <= n - div_trunc(n, d) * d < d,
        n <= 0 ==> -d < n - div_trunc(n, d) * d <= 0,
        n >= 0 ==> div_trunc(n, d) >= 0,
        n <= 0 ==> div_trunc(n, d) <= 0,
{
    if n >= 0 {
        vstd::arithmetic::div_mod::lemma_fundamental_div_mod(n, d);
        vstd::arithmetic::div_mod::lemma_mod_bound(n, d);
        vstd::arithmetic::div_mod::lemma_div_pos_is_pos(n, d);
        assert(d * (n / d) == (n / d) * d) by (nonlinear_arith);
    } else {
        vstd::arithmetic::div_mod::lemma_fundamental_div_mod(-n, d);
        vstd::arithmetic::div_mod::lemma_mod_bound(-n, d);
        vstd::arithmetic::div_mod::lemma_div_pos_is_pos(-n, d);
        assert(d * ((-n) / d) == ((-n) / d) * d) by (nonlinear_arith);
        assert((-((-n) / d)) * d == -(((-n) / d) * d)) by (nonlinear_arith);
    }
}

/// A quotient `q` whose remainder is smaller than `d` and has the sign of
/// `n` is `div_trunc(n, d)`.
pub proof fn lemma_div_trunc_unique(n: int, d: int, q: int)
    requires
        d > 0,
        n >= 0 ==> 0 <= n - q * d < d,
        n <= 0 ==> -d < n - q * d <= 0,
    ensures
        q == div_trunc(n, d),
{
    lemma_div_trunc_remainder(n, d);
    let p = div_trunc(n, d);
    assert(p == q) by (nonlinear_arith)
        requires
            d > 0,
            -d < (n - q * d) - (n - p * d) < d,
    {
        assert((n - q * d) - (n - p * d) == (p - q) * d);
        if p > q {
            assert((p - q) * d >= d);
        } else if p < q {
            assert((p - q) * d <= -d);
        }
    }
}

/// A multiple of `d` divides without rounding.
pub proof fn lemma_div_trunc_exact(k: int, d: int)
    requires
        d > 0,
    ensures
        div_trunc(k * d, d) == k,
{
    if k >= 0 {
        assert(k * d >= 0) by (nonlinear_arith)
            requires
                k >= 0,
                d > 0,
        ;
    } else {
        assert(k * d <= 0) by (nonlinear_arith)
            requires
                k <= 0,
                d > 0,
        ;
    }
    lemma_div_trunc_unique(k * d, d, k);
}

/// A dividend between two multiples of `d` has its quotient between the
/// two factors.
pub proof fn lemma_div_trunc_between(n: int, d: int, lo: int, hi: int)
    requires
        d > 0,
        lo * d <= n <= hi * d,
    ensures
        lo <= div_trunc(n, d) <= hi,
{
    lemma_div_trunc_remainder(n, d);
    let q = div_trunc(n, d);
    assert(lo <= q <= hi) by (nonlinear_arith)
        requires
            d > 0,
            lo * d <= n <= hi * d,
            -d < n - q * d < d,
            n >= 0 ==> q >= 0,
            n <= 0 ==> q <= 0,
            n >= 0 ==> n - q * d >= 0,
            n <= 0 ==> n - q * d <= 0,
    {
        if q > hi {
            assert(q * d >= hi * d + d);
            assert(q >= 1 ==> n >= q * d);
            assert(q <= 0 ==> hi * d <= -d);
        }
        if q < lo {
            assert(q * d <= lo * d - d);
            assert(q <= -1 ==> n <= q * d);
            assert(q >= 0 ==> lo * d >= d);
        }
    }
}

/// Rounding toward zero does not lengthen: the quotient by a positive `d` is
/// no larger in absolute value than the dividend.
pub proof fn lemma_div_trunc_shrinks(n: int, d: int, bound: int)
    requires
        d > 0,
        -bound <= n <= bound,
    ensures
        -bound <= div_trunc(n, d) <= bound,
{
    assert((-bound) * d <= n <= bound * d) by (nonlinear_arith)
        requires
            d >= 1,
            -bound <= n <= bound,
    {
        assert(bound >= 0);
        assert(bound * d >= bound);
    }
    lemma_div_trunc_between(n, d, -bound, bound);
}

/// The square root of a square is exact.
pub proof fn lemma_isqrt_square(r: int)
    requires
        r >= 0,
    ensures
        isqrt(r * r) == r,
{
    assert(is_isqrt(r * r, r)) by (nonlinear_arith)
        requires
            r >= 0,
    ;
    assert(r * r >= 0) by (nonlinear_arith);
    lemma_isqrt(r * r);
    lemma_isqrt_unique(r * r, r, isqrt(r * r));
}

/// A number of absolute value at most `a` times one of absolute value at
/// most `b` has absolute value at most `a b`.
pub proof fn lemma_product_bound(x: int, y: int, a: int, b: int)
    requires
        -a <= x <= a,
        -b <= y <= b,
    ensures
        -(a * b) <= x * y <= a * b,
{
    assert(-(a * b) <= x * y <= a * b) by (nonlinear_arith)
        requires
            -a <= x <= a,
            -b <= y <= b,
    {
        assert((a - x) * (b - y) >= 0);
        assert((a + x) * (b + y) >= 0);
        assert((a - x) * (b + y) >= 0);
        assert((a + x) * (b - y) >= 0);
    }
}

/// Two numbers whose squares add up to at most `c` squared are at most `c`.
pub proof fn lemma_square_bound(p: int, q: int, c: int)
    requires
        c >= 0,
        p * p + q * q <= c * c,
    ensures
        -c <= p <= c,
        -c <= q <= c,
{
    assert(-c <= p <= c && -c <= q <= c) by (nonlinear_arith)
        requires
            c >= 0,
            p * p + q * q <= c * c,
    {
        assert(q * q >= 0);
        assert(p * p >= 0);
        if p > c {
            assert(p * p > c * c);
        }
        if p < -c {
            assert(p * p > c * c);
        }
        if q > c {
            assert(q * q > c * c);
        }
        if q < -c {
            assert(q * q > c * c);
        }
    }
}


/// Two rounded-down square roots of one number are the same.
pub proof fn lemma_isqrt_unique(n: int, r: int, s: int)
    requires
        is_isqrt(n, r),
        is_isqrt(n, s),
    ensures
        r == s,
{
    assert(r == s) by (nonlinear_arith)
        requires
            0 <= r,
            0 <= s,
            r * r < (s + 1) * (s + 1),
            s * s < (r + 1) * (r + 1),
    {
        if r > s {
            assert(r * r >= (s + 1) * (s + 1));
        } else if s > r {
            assert(s * s >= (r + 1) * (r + 1));
        }
    }
}

/// Every non-negative number has a rounded-down square root, and `isqrt`
/// names it.
pub proof fn lemma_isqrt(n: int)
    requires
        n >= 0,
    ensures
        is_isqrt(n, isqrt(n)),
    decreases n,
{
    if n == 0 {
        assert(is_isqrt(0, 0));
    } else {
        lemma_isqrt(n - 1);
        let r = isqrt(n - 1);
        if (r + 1) * (r + 1) <= n {
            assert(is_isqrt(n, r + 1)) by (nonlinear_arith)
                requires
                    0 <= r,
                    (r + 1) * (r + 1) <= n,
                    n - 1 < (r + 1) * (r + 1),
            ;
        } else {
            assert(is_isqrt(n, r));
        }
    }
}

/// Divides `n` by a positive `d` and drops the fraction.
pub fn divide(n: i128, d: i128) -> (q: i128)
    requires
        d > 0,
    ensures
        q == div_trunc(n as int, d as int),
{
    n / d
}

/// Divides `n` by a non-zero `d` and drops the fraction.
pub fn divide_signed(n: i128, d: i128) -> (q: i128)
    requires
        d != 0,
        d > i128::MIN,
        n > i128::MIN,
    ensures
        q == quotient(n as int, d as int),
{
    if d > 0 {
        n / d
    } else {
        (-n) / (-d)
    }
}

/// The square root of `n`, rounded down.
pub fn sqrt_floor(n: u128) -> (r: u64)
    ensures
        r == isqrt(n as int),
        r * r <= n < (r + 1) * (r + 1),
{
    let mut lo: u128 = 0;
    let mut hi: u128 = 0x1_0000_0000_0000_0000;
    assert(n < 0x1_0000_0000_0000_0000int * 0x1_0000_0000_0000_0000int) by (nonlinear_arith)
        requires
            n <= u128::MAX,
    ;
    while hi - lo > 1
        invariant
            lo < hi <= 0x1_0000_0000_0000_0000,
            lo * lo <= n < hi * hi,
        decreases hi - lo,
    {
        let mid: u128 = lo + (hi - lo) / 2;
        assert(mid * mid <= u128::MAX) by (nonlinear_arith)
            requires
                mid < 0x1_0000_0000_0000_0000,
        ;
        if mid * mid <= n {
            lo = mid;
        } else {
            hi = mid;
        }
    }
    proof {
        assert(is_isqrt(n as int, lo as int));
        lemma_isqrt(n as int);
        lemma_isqrt_unique(n as int, lo as int, isqrt(n as int));
    }
    lo as u64
}

} // verus!

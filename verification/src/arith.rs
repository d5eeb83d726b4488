//! Integer arithmetic underneath the fixed-point numbers: saturation,
//! floor division and integer square roots.

use vstd::prelude::*;
use vstd::arithmetic::div_mod::{
    lemma_div_is_ordered, lemma_div_multiples_vanish, lemma_fundamental_div_mod,
    lemma_fundamental_div_mod_converse,
};

verus! {

/// The value of `v` once forced into the range of `i64`.
pub open spec fn saturate(v: int) -> int {
    if v < i64::MIN {
        i64::MIN as int
    } else if v > i64::MAX {
        i64::MAX as int
    } else {
        v
    }
}

/// The quotient `n / d` rounded towards negative infinity, for either sign of `d`.
pub open spec fn floor_div(n: int, d: int) -> int {
    if d > 0 {
        n / d
    } else {
        (-n) / (-d)
    }
}

/// The quotient `n / d` rounded towards zero, for a positive `d`.
pub open spec fn trunc_div(n: int, d: int) -> int {
    if n >= 0 {
        n / d
    } else {
        -((-n) / d)
    }
}

/// `r` is the integer square root of `n`: the largest `r >= 0` with `r * r <= n`.
pub open spec fn is_isqrt(n: int, r: int) -> bool {
    0 <= r && r * r <= n && n < (r + 1) * (r + 1)
}

/// The integer square root of `n`; zero for negative `n`.
pub open spec fn isqrt(n: int) -> int {
    if n <= 0 {
        0
    } else {
        choose|r: int| is_isqrt(n, r)
    }
}

/// A number has at most one integer square root.
pub proof fn lemma_isqrt_unique(n: int, r1: int, r2: int)
    requires
        is_isqrt(n, r1),
        is_isqrt(n, r2),
    ensures
        r1 == r2,
{
    if r1 < r2 {
        assert((r1 + 1) * (r1 + 1) <= r2 * r2) by (nonlinear_arith)
            requires
                0 <= r1,
                r1 + 1 <= r2,
        ;
    } else if r2 < r1 {
        assert((r2 + 1) * (r2 + 1) <= r1 * r1) by (nonlinear_arith)
            requires
                0 <= r2,
                r2 + 1 <= r1,
        ;
    }
}

/// Whatever meets `is_isqrt` is the value of `isqrt`.
pub proof fn lemma_isqrt_is(n: int, r: int)
    requires
        is_isqrt(n, r),
    ensures
        isqrt(n) == r,
{
    if n <= 0 {
        assert(r == 0) by (nonlinear_arith)
            requires
                0 <= r,
                r * r <= n,
                n <= 0,
        ;
    } else {
        let c = choose|c: int| is_isqrt(n, c);
        lemma_isqrt_unique(n, r, c);
    }
}

/// Every number from zero up has an integer square root.
pub proof fn lemma_isqrt_exists(n: nat)
    ensures
        is_isqrt(n as int, isqrt(n as int)),
    decreases n,
{
    if n == 0 {
        assert(is_isqrt(0, 0));
        lemma_isqrt_is(0, 0);
    } else {
        lemma_isqrt_exists((n - 1) as nat);
        let r = isqrt(n - 1);
        if (r + 1) * (r + 1) <= n {
            assert(n < (r + 2) * (r + 2)) by (nonlinear_arith)
                requires
                    n - 1 < (r + 1) * (r + 1),
                    0 <= r,
            ;
            assert(is_isqrt(n as int, r + 1));
            lemma_isqrt_is(n as int, r + 1);
        } else {
            assert(is_isqrt(n as int, r));
            lemma_isqrt_is(n as int, r);
        }
    }
}

/// The integer square root grows with its argument.
pub proof fn lemma_isqrt_monotone(m: int, n: int)
    requires
        m <= n,
    ensures
        isqrt(m) <= isqrt(n),
{
    if m > 0 {
        lemma_isqrt_exists(m as nat);
        lemma_isqrt_exists(n as nat);
        let r = isqrt(m);
        let s = isqrt(n);
        if s < r {
            assert((s + 1) * (s + 1) <= r * r) by (nonlinear_arith)
                requires
                    0 <= s,
                    s + 1 <= r,
            ;
        }
    } else if n > 0 {
        lemma_isqrt_exists(n as nat);
    }
}

/// The integer square root of a square is its base.
pub proof fn lemma_isqrt_of_square(b: int)
    requires
        0 <= b,
    ensures
        isqrt(b * b) == b,
{
    assert(b * b < (b + 1) * (b + 1)) by (nonlinear_arith)
        requires
            0 <= b,
    ;
    lemma_isqrt_is(b * b, b);
}

/// Floor division by a positive number stays between zero and the numerator.
pub proof fn lemma_div_between(n: int, d: int)
    requires
        d > 0,
    ensures
        n >= 0 ==> 0 <= n / d <= n,
        n < 0 ==> n <= n / d < 0,
{
    lemma_fundamental_div_mod(n, d);
    let q = n / d;
    let r = n % d;
    assert(0 <= r < d);
    if n >= 0 {
        assert(0 <= q && q <= n) by (nonlinear_arith)
            requires
                n == d * q + r,
                0 <= r < d,
                n >= 0,
                d > 0,
        ;
    } else {
        assert(n <= q && q < 0) by (nonlinear_arith)
            requires
                n == d * q + r,
                0 <= r < d,
                n < 0,
                d > 0,
        ;
    }
}

/// The quotients of two numbers add up to the quotient of their sum, or to one less.
pub proof fn lemma_floor_div_of_sum(x: int, y: int, d: int)
    requires
        d > 0,
    ensures
        (x + y) / d - 1 <= x / d + y / d <= (x + y) / d,
{
    lemma_fundamental_div_mod(x, d);
    lemma_fundamental_div_mod(y, d);
    let q = x / d + y / d;
    let r = x % d + y % d;
    assert(d * q == d * (x / d) + d * (y / d)) by (nonlinear_arith)
        requires
            q == x / d + y / d,
    ;
    if r < d {
        assert(q * d == d * q) by (nonlinear_arith);
        lemma_fundamental_div_mod_converse(x + y, d, q, r);
    } else {
        assert((q + 1) * d == d * q + d) by (nonlinear_arith);
        lemma_fundamental_div_mod_converse(x + y, d, q + 1, r - d);
    }
}

/// A quotient does not change when numerator and divisor are both doubled.
pub proof fn lemma_floor_div_doubled(u: int, d: int)
    requires
        d > 0,
    ensures
        (2 * u) / (2 * d) == u / d,
{
    lemma_fundamental_div_mod(u, d);
    let q = u / d;
    let r = u % d;
    assert(2 * u == q * (2 * d) + 2 * r) by (nonlinear_arith)
        requires
            u == d * q + r,
    ;
    lemma_fundamental_div_mod_converse(2 * u, 2 * d, q, 2 * r);
}

/// A quotient lies between two numbers when the numerator lies between
/// their multiples of the divisor.
pub proof fn lemma_trunc_div_between(n: int, d: int, lo: int, hi: int)
    requires
        d > 0,
        lo * d <= n <= hi * d,
    ensures
        lo <= trunc_div(n, d) <= hi,
{
    assert(lo * d == d * lo && hi * d == d * hi && (-lo) * d == -(d * lo) && (-hi) * d == -(d
        * hi) && d * (-lo) == -(d * lo) && d * (-hi) == -(d * hi)) by (nonlinear_arith);
    if n >= 0 {
        lemma_div_is_ordered(d * lo, n, d);
        lemma_div_is_ordered(n, d * hi, d);
        lemma_div_multiples_vanish(lo, d);
        lemma_div_multiples_vanish(hi, d);
    } else {
        lemma_div_is_ordered(d * (-hi), -n, d);
        lemma_div_is_ordered(-n, d * (-lo), d);
        lemma_div_multiples_vanish(-lo, d);
        lemma_div_multiples_vanish(-hi, d);
    }
}

/// `v` forced into the range of `i64`.
pub(crate) fn saturate_i128(v: i128) -> (r: i64)
    ensures
        r == saturate(v as int),
{
    if v < i64::MIN as i128 {
        i64::MIN
    } else if v > i64::MAX as i128 {
        i64::MAX
    } else {
        v as i64
    }
}

/// Floor division on machine integers.
pub(crate) fn floor_div_i128(n: i128, d: i128) -> (q: i128)
    requires
        d != 0,
        i128::MIN < n,
        i128::MIN < d,
    ensures
        q == floor_div(n as int, d as int),
{
    let (nn, dd): (i128, i128) = if d > 0 {
        (n, d)
    } else {
        (-n, -d)
    };
    proof {
        lemma_div_between(nn as int, dd as int);
    }
    nn.checked_div_euclid(dd).unwrap()
}

/// The integer square root of `n`, found by bisection.
pub(crate) fn isqrt_u128(n: u128) -> (r: u128)
    ensures
        is_isqrt(n as int, r as int),
        r < 0x1_0000_0000_0000_0000,
{
    let mut lo: u128 = 0;
    let mut hi: u128 = 0x1_0000_0000_0000_0000;
    assert(n < hi * hi) by (nonlinear_arith)
        requires
            hi == 0x1_0000_0000_0000_0000,
            n <= u128::MAX,
    ;
    assert(lo * lo <= n) by (nonlinear_arith)
        requires
            lo == 0,
            n >= 0,
    ;
    while hi - lo > 1
        invariant
            lo < hi <= 0x1_0000_0000_0000_0000,
            lo * lo <= n,
            n < hi * hi,
        decreases hi - lo,
    {
        let mid: u128 = lo + (hi - lo) / 2;
        assert(mid * mid <= u128::MAX) by (nonlinear_arith)
            requires
                0 <= mid < 0x1_0000_0000_0000_0000,
        ;
        if mid * mid <= n {
            lo = mid;
        } else {
            hi = mid;
        }
    }
    lo
}

/// The product of two `i64` values never leaves 127 bits.
pub proof fn lemma_product_bound(a: int, b: int)
    requires
        i64::MIN <= a <= i64::MAX,
        i64::MIN <= b <= i64::MAX,
    ensures
        -0x4000_0000_0000_0000_0000_0000_0000_0000 <= a * b
            <= 0x4000_0000_0000_0000_0000_0000_0000_0000,
{
    assert(-0x4000_0000_0000_0000_0000_0000_0000_0000 <= a * b
        <= 0x4000_0000_0000_0000_0000_0000_0000_0000) by (nonlinear_arith)
        requires
            -0x8000_0000_0000_0000 <= a <= 0x7fff_ffff_ffff_ffff,
            -0x8000_0000_0000_0000 <= b <= 0x7fff_ffff_ffff_ffff,
    ;
}

/// The integer square root of `a * a + b * b + c * c`, saturated.
pub(crate) fn root_of_squares(a: i64, b: i64, c: i64) -> (r: i64)
    ensures
        r == saturate(isqrt(a * a + b * b + c * c)),
{
    proof {
        lemma_product_bound(a as int, a as int);
        lemma_product_bound(b as int, b as int);
        lemma_product_bound(c as int, c as int);
        assert(a * a >= 0 && b * b >= 0 && c * c >= 0) by (nonlinear_arith);
    }
    let aa: i128 = (a as i128) * (a as i128);
    let bb: i128 = (b as i128) * (b as i128);
    let cc: i128 = (c as i128) * (c as i128);
    let n: u128 = (aa as u128) + (bb as u128) + (cc as u128);
    let root: u128 = isqrt_u128(n);
    proof {
        lemma_isqrt_is(n as int, root as int);
    }
    saturate_i128(root as i128)
}

} // verus!

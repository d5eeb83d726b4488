//! Fixed-point real numbers with six decimal places.
//!
//! A [`Fixed`] holds a real number as a count of millionths in an `i64`.
//! A result that does not fit is replaced by the nearest representable
//! value, and a result that is not a whole number of millionths is rounded
//! down. Every operation is defined for all numbers, but for division: `div`
//! and `from_ratio` require a divisor that is not zero.

use vstd::prelude::*;
use vstd::arithmetic::div_mod::{lemma_fundamental_div_mod, lemma_hoist_over_denominator};
use crate::arith::{
    floor_div, floor_div_i128, isqrt, isqrt_u128, lemma_div_between, lemma_isqrt_is,
    lemma_product_bound, root_of_squares, saturate, saturate_i128,
};

verus! {

/// The number of raw units that make up 1.0.
pub const SCALE: i64 = 1_000_000;

/// A real number, stored as `raw` millionths.
#[derive(Clone, Copy, Debug, PartialEq, Eq, Structural)]
pub struct Fixed {
    pub raw: i64,
}

impl View for Fixed {
    type V = int;

    /// The number of millionths.
    open spec fn view(&self) -> int {
        self.raw as int
    }
}

impl Fixed {
    /// The representable number nearest to `v` millionths.
    pub open spec fn of(v: int) -> Fixed {
        Fixed { raw: saturate(v) as i64 }
    }

    /// The sum, held within the range of the numbers.
    pub open spec fn spec_add(self, rhs: Fixed) -> Fixed {
        Fixed::of(self@ + rhs@)
    }

    /// The difference, held within the range of the numbers.
    pub open spec fn spec_sub(self, rhs: Fixed) -> Fixed {
        Fixed::of(self@ - rhs@)
    }

    /// The same number with the other sign; the largest number for the smallest.
    pub open spec fn spec_neg(self) -> Fixed {
        Fixed::of(-self@)
    }

    /// The product, rounded down and held within the range of the numbers.
    pub open spec fn spec_mul(self, rhs: Fixed) -> Fixed {
        Fixed::of((self@ * rhs@) / (SCALE as int))
    }

    /// The quotient, rounded down and held within the range of the numbers;
    /// meaningful for a non-zero divisor only.
    pub open spec fn spec_div(self, rhs: Fixed) -> Fixed {
        Fixed::of(floor_div(self@ * SCALE, rhs@))
    }

    /// The square root, rounded down; zero for a negative number.
    pub open spec fn spec_sqrt(self) -> Fixed {
        Fixed::of(isqrt(self@ * SCALE))
    }

    /// `self` to the whole power `n`: 1 multiplied by `self` `n` times, each
    /// product rounded.
    pub open spec fn spec_pow(self, n: nat) -> Fixed
        decreases n,
    {
        if n == 0 {
            Fixed { raw: SCALE }
        } else {
            self.spec_pow((n - 1) as nat).spec_mul(self)
        }
    }

    /// Once a power is the same as the one before it, all higher powers are.
    pub proof fn lemma_pow_settles(self, k: nat, n: nat)
        requires
            self.spec_pow(k + 1) == self.spec_pow(k),
            k <= n,
        ensures
            self.spec_pow(n) == self.spec_pow(k),
        decreases n,
    {
        if n > k + 1 {
            self.lemma_pow_settles(k, (n - 1) as nat);
            self.lemma_pow_settles(k, (n - 2) as nat);
        }
    }

    /// `self` to the power `fraction / SCALE`, for a `fraction` from zero
    /// up to, but not, `SCALE`. The power is taken by square roots: `x` to
    /// the power `f` is `sqrt(x)` to the power `2f`, and where `2f` is 1 or
    /// more that is `sqrt(x)` times `sqrt(x)` to the power `2f - 1`. After
    /// `places` roots what is left of the fraction is dropped.
    pub open spec fn spec_pow_fraction(self, fraction: int, places: nat) -> Fixed
        decreases places,
    {
        if places == 0 || fraction <= 0 {
            Fixed { raw: SCALE }
        } else {
            let root = self.spec_sqrt();
            if 2 * fraction >= SCALE {
                root.spec_mul(root.spec_pow_fraction(2 * fraction - SCALE, (places - 1) as nat))
            } else {
                root.spec_pow_fraction(2 * fraction, (places - 1) as nat)
            }
        }
    }

    /// `self` to the power of `magnitude` millionths, `magnitude` not negative:
    /// the whole power times the power of the fraction, the fraction taken to
    /// twenty binary places.
    pub open spec fn spec_pow_magnitude(self, magnitude: int) -> Fixed {
        self.spec_pow((magnitude / (SCALE as int)) as nat).spec_mul(
            self.spec_pow_fraction(magnitude % (SCALE as int), 20),
        )
    }

    /// `self` to the power `exponent`. A negative power is the reciprocal of
    /// the positive one, and the largest number where that reciprocal has a
    /// zero divisor.
    pub open spec fn spec_powf(self, exponent: Fixed) -> Fixed {
        if exponent@ >= 0 {
            self.spec_pow_magnitude(exponent@)
        } else {
            let d = self.spec_pow_magnitude(-exponent@);
            if d@ == 0 {
                Fixed { raw: i64::MAX }
            } else {
                Fixed { raw: SCALE }.spec_div(d)
            }
        }
    }

    /// The sum of three products, rounded once.
    pub open spec fn spec_dot3(a1: Fixed, b1: Fixed, a2: Fixed, b2: Fixed, a3: Fixed, b3: Fixed) -> Fixed {
        Fixed::of((a1@ * b1@ + a2@ * b2@ + a3@ * b3@) / (SCALE as int))
    }

    /// The square root of the sum of three squares, rounded once.
    pub open spec fn spec_norm3(a: Fixed, b: Fixed, c: Fixed) -> Fixed {
        Fixed::of(isqrt(a@ * a@ + b@ * b@ + c@ * c@))
    }

    /// The number 0.
    pub fn zero() -> (r: Fixed)
        ensures
            r@ == 0,
    {
        Fixed { raw: 0 }
    }

    /// The number 1.
    pub fn one() -> (r: Fixed)
        ensures
            r@ == SCALE,
    {
        Fixed { raw: SCALE }
    }

    /// The largest representable number; it stands for "unbounded".
    pub fn max_value() -> (r: Fixed)
        ensures
            r@ == i64::MAX,
    {
        Fixed { raw: i64::MAX }
    }

    /// The whole number `v`.
    pub fn from_int(v: i32) -> (r: Fixed)
        ensures
            r@ == v * SCALE,
    {
        Fixed { raw: (v as i64) * SCALE }
    }

    /// The whole number `n`, or the largest number where `n` is beyond it.
    pub fn from_usize(n: usize) -> (r: Fixed)
        ensures
            r == Fixed::of(n * SCALE),
    {
        let wide: i128 = (n as i128) * 1_000_000;
        Fixed { raw: saturate_i128(wide) }
    }

    /// The fraction `num / den`, rounded down to a millionth.
    pub fn from_ratio(num: i64, den: i64) -> (r: Fixed)
        requires
            den != 0,
        ensures
            r == Fixed::of(floor_div(num * SCALE, den as int)),
    {
        let n: i128 = (num as i128) * 1_000_000;
        Fixed { raw: saturate_i128(floor_div_i128(n, den as i128)) }
    }

    /// `self + rhs`.
    pub fn add(self, rhs: Fixed) -> (r: Fixed)
        ensures
            r == self.spec_add(rhs),
    {
        Fixed { raw: saturate_i128(self.raw as i128 + rhs.raw as i128) }
    }

    /// `self - rhs`.
    pub fn sub(self, rhs: Fixed) -> (r: Fixed)
        ensures
            r == self.spec_sub(rhs),
    {
        Fixed { raw: saturate_i128(self.raw as i128 - rhs.raw as i128) }
    }

    /// `-self`.
    pub fn neg(self) -> (r: Fixed)
        ensures
            r == self.spec_neg(),
    {
        Fixed { raw: saturate_i128(-(self.raw as i128)) }
    }

    /// `self * rhs`.
    pub fn mul(self, rhs: Fixed) -> (r: Fixed)
        ensures
            r == self.spec_mul(rhs),
    {
        proof {
            lemma_product_bound(self@, rhs@);
        }
        let product: i128 = (self.raw as i128) * (rhs.raw as i128);
        Fixed { raw: saturate_i128(floor_div_i128(product, 1_000_000)) }
    }

    /// `self / rhs`.
    pub fn div(self, rhs: Fixed) -> (r: Fixed)
        requires
            rhs@ != 0,
        ensures
            r == self.spec_div(rhs),
    {
        let n: i128 = (self.raw as i128) * 1_000_000;
        Fixed { raw: saturate_i128(floor_div_i128(n, rhs.raw as i128)) }
    }

    /// The square root of `self`.
    pub fn sqrt(self) -> (r: Fixed)
        ensures
            r == self.spec_sqrt(),
    {
        if self.raw <= 0 {
            Fixed { raw: 0 }
        } else {
            let n: u128 = (self.raw as u128) * (SCALE as u128);
            let root: u128 = isqrt_u128(n);
            proof {
                lemma_isqrt_is(n as int, root as int);
            }
            Fixed { raw: saturate_i128(root as i128) }
        }
    }

    /// `a1 * b1 + a2 * b2 + a3 * b3` with a single rounding. The sum of the
    /// three raw products may not fit in 128 bits, so each product is split
    /// into quotient and remainder first.
    pub fn dot3(a1: Fixed, b1: Fixed, a2: Fixed, b2: Fixed, a3: Fixed, b3: Fixed) -> (r: Fixed)
        ensures
            r == Fixed::spec_dot3(a1, b1, a2, b2, a3, b3),
    {
        proof {
            lemma_product_bound(a1@, b1@);
            lemma_product_bound(a2@, b2@);
            lemma_product_bound(a3@, b3@);
        }
        let d: i128 = SCALE as i128;
        let p1: i128 = (a1.raw as i128) * (b1.raw as i128);
        let p2: i128 = (a2.raw as i128) * (b2.raw as i128);
        let p3: i128 = (a3.raw as i128) * (b3.raw as i128);
        proof {
            lemma_fundamental_div_mod(p1 as int, d as int);
            lemma_fundamental_div_mod(p2 as int, d as int);
            lemma_fundamental_div_mod(p3 as int, d as int);
        }
        let h1: i128 = floor_div_i128(p1, d);
        let h2: i128 = floor_div_i128(p2, d);
        let h3: i128 = floor_div_i128(p3, d);
        let l1: i128 = p1 - h1 * d;
        let l2: i128 = p2 - h2 * d;
        let l3: i128 = p3 - h3 * d;
        let high: i128 = h1 + h2 + h3;
        let low: i128 = l1 + l2 + l3;
        proof {
            lemma_hoist_over_denominator(low as int, high as int, d as nat);
            lemma_div_between(low as int, d as int);
        }
        Fixed { raw: saturate_i128(high + low / d) }
    }

    /// The length of the vector `(a, b, c)`.
    pub fn norm3(a: Fixed, b: Fixed, c: Fixed) -> (r: Fixed)
        ensures
            r == Fixed::spec_norm3(a, b, c),
    {
        Fixed { raw: root_of_squares(a.raw, b.raw, c.raw) }
    }

    /// `self` to the whole power `n`. The products are made one by one until
    /// one of them changes nothing any more.
    pub fn pow(self, n: u64) -> (r: Fixed)
        ensures
            r == self.spec_pow(n as nat),
    {
        let mut acc: Fixed = Fixed { raw: SCALE };
        let mut i: u64 = 0;
        while i < n
            invariant
                i <= n,
                acc == self.spec_pow(i as nat),
            decreases n - i,
        {
            let next = acc.mul(self);
            if next.raw == acc.raw {
                proof {
                    self.lemma_pow_settles(i as nat, n as nat);
                }
                return acc;
            }
            acc = next;
            i = i + 1;
        }
        acc
    }

    /// `self` to the power `fraction / SCALE`, taken to `places` binary places.
    fn pow_fraction(self, fraction: u64, places: u32) -> (r: Fixed)
        requires
            fraction < SCALE,
        ensures
            r == self.spec_pow_fraction(fraction as int, places as nat),
        decreases places,
    {
        if places == 0 || fraction == 0 {
            Fixed { raw: SCALE }
        } else {
            let root = self.sqrt();
            if 2 * fraction >= 1_000_000 {
                root.mul(root.pow_fraction(2 * fraction - 1_000_000, places - 1))
            } else {
                root.pow_fraction(2 * fraction, places - 1)
            }
        }
    }

    /// `self` to the power `exponent`.
    pub fn powf(self, exponent: Fixed) -> (r: Fixed)
        ensures
            r == self.spec_powf(exponent),
    {
        let wide: i128 = exponent.raw as i128;
        let magnitude: u64 = if wide >= 0 {
            wide as u64
        } else {
            (-wide) as u64
        };
        let power = self.pow(magnitude / 1_000_000).mul(
            self.pow_fraction(magnitude % 1_000_000, 20),
        );
        if exponent.raw >= 0 {
            power
        } else if power.raw == 0 {
            Fixed { raw: i64::MAX }
        } else {
            Fixed { raw: SCALE }.div(power)
        }
    }
}

} // verus!

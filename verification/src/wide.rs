//! Whole numbers of any size, for the few places where the exact value of
//! an expression over the fixed-point numbers does not fit a machine word.

use vstd::prelude::*;
use vstd::arithmetic::div_mod::{
    lemma_div_is_ordered, lemma_div_multiples_vanish, lemma_fundamental_div_mod_converse,
};
use crate::arith::{is_isqrt, saturate};

verus! {

/// The number that the limbs stand for, the least significant limb first,
/// each limb worth 2^64 times the one before it.
pub open spec fn limbs_value(s: Seq<u64>) -> nat
    decreases s.len(),
{
    if s.len() == 0 {
        0
    } else {
        s[0] as nat + 0x1_0000_0000_0000_0000 * limbs_value(s.drop_first())
    }
}

/// The number that the limbs from place `i` on stand for.
pub open spec fn value_from(s: Seq<u64>, i: int) -> nat
    decreases s.len() - i,
{
    if i < 0 || i >= s.len() {
        0
    } else {
        s[i] as nat + 0x1_0000_0000_0000_0000 * value_from(s, i + 1)
    }
}

/// The limb at place `i`, zero beyond the last.
pub open spec fn limb(s: Seq<u64>, i: int) -> nat {
    if 0 <= i < s.len() {
        s[i] as nat
    } else {
        0
    }
}

/// `2^k`.
pub open spec fn two_to(k: nat) -> int
    decreases k,
{
    if k == 0 {
        1
    } else {
        2 * two_to((k - 1) as nat)
    }
}

proof fn lemma_two_to_positive(k: nat)
    ensures
        two_to(k) >= 1,
    decreases k,
{
    if k > 0 {
        lemma_two_to_positive((k - 1) as nat);
    }
}

proof fn lemma_value_from(s: Seq<u64>, i: int)
    requires
        0 <= i <= s.len(),
    ensures
        value_from(s, i) == limbs_value(s.subrange(i, s.len() as int)),
    decreases s.len() - i,
{
    let rest = s.subrange(i, s.len() as int);
    if i < s.len() {
        lemma_value_from(s, i + 1);
        assert(rest.drop_first() =~= s.subrange(i + 1, s.len() as int));
    }
}

proof fn lemma_value_from_start(s: Seq<u64>)
    ensures
        value_from(s, 0) == limbs_value(s),
{
    lemma_value_from(s, 0);
    assert(s.subrange(0, s.len() as int) =~= s);
}

proof fn lemma_value_step(s: Seq<u64>, i: int)
    requires
        0 <= i,
    ensures
        value_from(s, i) == limb(s, i) + 0x1_0000_0000_0000_0000 * value_from(s, i + 1),
{
}

proof fn lemma_front(s: Seq<u64>, x: u64)
    ensures
        limbs_value(s.insert(0, x)) == x + 0x1_0000_0000_0000_0000 * limbs_value(s),
{
    assert(s.insert(0, x).drop_first() =~= s);
}

fn limb_at(a: &Vec<u64>, i: usize) -> (r: u64)
    ensures
        r == limb(a@, i as int),
{
    if i < a.len() {
        a[i]
    } else {
        0
    }
}

fn with_front(rest: Vec<u64>, x: u64) -> (r: Vec<u64>)
    ensures
        limbs_value(r@) == x + 0x1_0000_0000_0000_0000 * limbs_value(rest@),
{
    let mut r = rest;
    proof {
        lemma_front(r@, x);
    }
    r.insert(0, x);
    r
}

/// The limbs of `a + b + carry`, counting the limbs from place `i` on.
fn add_from(a: &Vec<u64>, b: &Vec<u64>, i: usize, carry: u64) -> (r: Vec<u64>)
    requires
        carry <= 1,
    ensures
        limbs_value(r@) == value_from(a@, i as int) + value_from(b@, i as int) + carry,
    decreases
            (if a@.len() > b@.len() {
                a@.len()
            } else {
                b@.len()
            }) - i,
{
    proof {
        lemma_value_step(a@, i as int);
        lemma_value_step(b@, i as int);
    }
    if i >= a.len() && i >= b.len() {
        with_front(Vec::new(), carry)
    } else {
        let sum: u128 = limb_at(a, i) as u128 + limb_at(b, i) as u128 + carry as u128;
        let low: u64 = (sum % 0x1_0000_0000_0000_0000) as u64;
        let high: u64 = (sum / 0x1_0000_0000_0000_0000) as u64;
        let rest = add_from(a, b, i + 1, high);
        with_front(rest, low)
    }
}

/// The limbs of `a * m + carry`, counting the limbs of `a` from place `i` on.
fn mul_small_from(a: &Vec<u64>, m: u64, i: usize, carry: u64) -> (r: Vec<u64>)
    ensures
        limbs_value(r@) == value_from(a@, i as int) * m + carry,
    decreases a@.len() - i,
{
    proof {
        lemma_value_step(a@, i as int);
    }
    if i >= a.len() {
        assert(value_from(a@, i as int) * m == 0) by (nonlinear_arith)
            requires
                value_from(a@, i as int) == 0,
        ;
        with_front(Vec::new(), carry)
    } else {
        let x: u64 = a[i];
        assert(x * m + carry <= 0xffff_ffff_ffff_ffff_0000_0000_0000_0000) by (nonlinear_arith)
            requires
                0 <= x <= 0xffff_ffff_ffff_ffff,
                0 <= m <= 0xffff_ffff_ffff_ffff,
                0 <= carry <= 0xffff_ffff_ffff_ffff,
        ;
        let product: u128 = (x as u128) * (m as u128) + carry as u128;
        let low: u64 = (product % 0x1_0000_0000_0000_0000) as u64;
        let high: u64 = (product / 0x1_0000_0000_0000_0000) as u64;
        let rest = mul_small_from(a, m, i + 1, high);
        proof {
            let v = value_from(a@, i + 1);
            assert((x + 0x1_0000_0000_0000_0000 * v) * m == x * m + 0x1_0000_0000_0000_0000 * (v
                * m)) by (nonlinear_arith);
            assert(value_from(a@, i as int) * m == (x + 0x1_0000_0000_0000_0000 * v) * m);
        }
        with_front(rest, low)
    }
}

/// The limbs of `a - b - borrow`, counting the limbs from place `i` on.
fn sub_from(a: &Vec<u64>, b: &Vec<u64>, i: usize, borrow: u64) -> (r: Vec<u64>)
    requires
        borrow <= 1,
        value_from(a@, i as int) >= value_from(b@, i as int) + borrow,
    ensures
        limbs_value(r@) == value_from(a@, i as int) - value_from(b@, i as int) - borrow,
    decreases a@.len() - i,
{
    proof {
        lemma_value_step(a@, i as int);
        lemma_value_step(b@, i as int);
    }
    if i >= a.len() {
        Vec::new()
    } else {
        let x: u128 = a[i] as u128;
        let y: u128 = limb_at(b, i) as u128 + borrow as u128;
        if x >= y {
            let rest = sub_from(a, b, i + 1, 0);
            with_front(rest, (x - y) as u64)
        } else {
            let rest = sub_from(a, b, i + 1, 1);
            with_front(rest, (0x1_0000_0000_0000_0000 + x - y) as u64)
        }
    }
}

/// The sign of `a - b`, counting the limbs from place `i` on: -1, 0 or 1.
fn order_from(a: &Vec<u64>, b: &Vec<u64>, i: usize) -> (r: i8)
    ensures
        r == -1 || r == 0 || r == 1,
        r == -1 <==> value_from(a@, i as int) < value_from(b@, i as int),
        r == 0 <==> value_from(a@, i as int) == value_from(b@, i as int),
    decreases
            (if a@.len() > b@.len() {
                a@.len()
            } else {
                b@.len()
            }) - i,
{
    proof {
        lemma_value_step(a@, i as int);
        lemma_value_step(b@, i as int);
    }
    if i >= a.len() && i >= b.len() {
        0
    } else {
        let rest: i8 = order_from(a, b, i + 1);
        if rest != 0 {
            rest
        } else {
            let x: u64 = limb_at(a, i);
            let y: u64 = limb_at(b, i);
            if x < y {
                -1
            } else if x > y {
                1
            } else {
                0
            }
        }
    }
}

/// The limbs of `a * b`, counting the limbs of `b` from place `i` on.
fn mul_from(a: &Vec<u64>, b: &Vec<u64>, i: usize) -> (r: Vec<u64>)
    ensures
        limbs_value(r@) == limbs_value(a@) * value_from(b@, i as int),
    decreases b@.len() - i,
{
    proof {
        lemma_value_step(b@, i as int);
    }
    if i >= b.len() {
        assert(limbs_value(a@) * 0 == 0) by (nonlinear_arith);
        Vec::new()
    } else {
        let rest = mul_from(a, b, i + 1);
        let shifted = with_front(rest, 0);
        let part = mul_small_from(a, b[i], 0, 0);
        proof {
            lemma_value_from_start(a@);
            lemma_value_from_start(shifted@);
            lemma_value_from_start(part@);
            let v = limbs_value(a@);
            let w = value_from(b@, i + 1);
            let x = b@[i as int];
            assert(0x1_0000_0000_0000_0000 * (v * w) + v * x == v * (x + 0x1_0000_0000_0000_0000
                * w)) by (nonlinear_arith);
        }
        add_from(&shifted, &part, 0, 0)
    }
}

/// A whole number of any size.
pub struct Wide {
    negative: bool,
    limbs: Vec<u64>,
}

impl View for Wide {
    type V = int;

    closed spec fn view(&self) -> int {
        if self.negative {
            -(limbs_value(self.limbs@) as int)
        } else {
            limbs_value(self.limbs@) as int
        }
    }
}

impl Wide {
    /// The number `x`.
    pub fn from_i128(x: i128) -> (r: Wide)
        ensures
            r@ == x,
    {
        let magnitude: u128 = if x >= 0 {
            x as u128
        } else {
            ((-(x + 1)) as u128) + 1
        };
        let low: u64 = (magnitude % 0x1_0000_0000_0000_0000) as u64;
        let high: u64 = (magnitude / 0x1_0000_0000_0000_0000) as u64;
        let limbs = with_front(with_front(Vec::new(), high), low);
        Wide { negative: x < 0, limbs }
    }

    /// `self + other`, or `self - other` where `minus` is set.
    fn combine(&self, other: &Wide, minus: bool) -> (r: Wide)
        ensures
            r@ == if minus {
                self@ - other@
            } else {
                self@ + other@
            },
    {
        let other_negative: bool = other.negative != minus;
        proof {
            lemma_value_from_start(self.limbs@);
            lemma_value_from_start(other.limbs@);
        }
        if self.negative == other_negative {
            Wide { negative: self.negative, limbs: add_from(&self.limbs, &other.limbs, 0, 0) }
        } else {
            let order: i8 = order_from(&self.limbs, &other.limbs, 0);
            if order >= 0 {
                Wide { negative: self.negative, limbs: sub_from(&self.limbs, &other.limbs, 0, 0) }
            } else {
                Wide { negative: other_negative, limbs: sub_from(&other.limbs, &self.limbs, 0, 0) }
            }
        }
    }

    /// `self + other`.
    pub fn add(&self, other: &Wide) -> (r: Wide)
        ensures
            r@ == self@ + other@,
    {
        self.combine(other, false)
    }

    /// `self - other`.
    pub fn sub(&self, other: &Wide) -> (r: Wide)
        ensures
            r@ == self@ - other@,
    {
        self.combine(other, true)
    }

    /// `self * other`.
    pub fn mul(&self, other: &Wide) -> (r: Wide)
        ensures
            r@ == self@ * other@,
    {
        let limbs = mul_from(&self.limbs, &other.limbs, 0);
        proof {
            lemma_value_from_start(other.limbs@);
            let v = limbs_value(self.limbs@) as int;
            let w = limbs_value(other.limbs@) as int;
            assert((-v) * w == -(v * w) && v * (-w) == -(v * w) && (-v) * (-w) == v * w) by (nonlinear_arith);
        }
        Wide { negative: self.negative != other.negative, limbs }
    }

    /// Whether the number is below zero.
    pub fn is_negative(&self) -> (r: bool)
        ensures
            r == (self@ < 0),
    {
        let nothing: Vec<u64> = Vec::new();
        proof {
            lemma_value_from_start(self.limbs@);
            lemma_value_from_start(nothing@);
        }
        self.negative && order_from(&self.limbs, &nothing, 0) != 0
    }

    /// Whether `self <= other`.
    pub fn le(&self, other: &Wide) -> (r: bool)
        ensures
            r == (self@ <= other@),
    {
        !other.sub(self).is_negative()
    }

    /// The integer square root of a number that is not negative.
    pub fn isqrt(&self) -> (r: Wide)
        requires
            self@ >= 0,
        ensures
            is_isqrt(self@, r@),
    {
        // the powers of two whose squares do not exceed the number
        let mut powers: Vec<Wide> = Vec::new();
        let mut p = Wide::from_i128(1);
        let mut fits: bool = p.mul(&p).le(self);
        while fits
            invariant
                fits == (p@ * p@ <= self@),
                p@ == two_to(powers@.len()),
                p@ >= 1,
                forall|j: int| 0 <= j < powers@.len() ==> (#[trigger] powers@[j])@ == two_to(j as nat),
            decreases
                    (if p@ * p@ <= self@ {
                        self@ - p@ * p@ + 1
                    } else {
                        0
                    }),
        {
            let next = p.add(&p);
            proof {
                assert(next@ * next@ > p@ * p@) by (nonlinear_arith)
                    requires
                        next@ == p@ + p@,
                        p@ >= 1,
                ;
            }
            powers.push(p);
            p = next;
            fits = p.mul(&p).le(self);
        }
        // the root, bit by bit from the top
        let mut r = Wide::from_i128(0);
        let mut i: usize = powers.len();
        assert(self@ < (r@ + p@) * (r@ + p@));
        assert(r@ * r@ <= self@) by (nonlinear_arith)
            requires
                r@ == 0,
                self@ >= 0,
        ;
        while i > 0
            invariant
                i <= powers@.len(),
                forall|j: int| 0 <= j < powers@.len() ==> (#[trigger] powers@[j])@ == two_to(j as nat),
                r@ >= 0,
                r@ * r@ <= self@,
                self@ < (r@ + two_to(i as nat)) * (r@ + two_to(i as nat)),
            decreases i,
        {
            i = i - 1;
            let candidate = r.add(&powers[i]);
            let ghost bit = two_to(i as nat);
            let ghost upper = r@ + two_to((i + 1) as nat);
            assert(two_to((i + 1) as nat) == 2 * bit);
            assert((powers@[i as int])@ == bit);
            assert(candidate@ == r@ + bit);
            assert(bit >= 1) by {
                lemma_two_to_positive(i as nat);
            }
            assert(self@ < upper * upper);
            assert(candidate@ + bit == upper);
            if candidate.mul(&candidate).le(self) {
                r = candidate;
                assert((r@ + bit) * (r@ + bit) == upper * upper);
            }
        }
        assert(two_to(0) == 1);
        assert((r@ + two_to(0)) * (r@ + two_to(0)) == (r@ + 1) * (r@ + 1));
        r
    }

    /// `n / m`, rounded down and held within the range of `i64`.
    pub fn div_saturated(n: &Wide, m: &Wide) -> (r: i64)
        requires
            m@ > 0,
        ensures
            r == saturate(n@ / m@),
    {
        let top = Wide::from_i128(0x8000_0000_0000_0000);
        let bottom = Wide::from_i128(-0x8000_0000_0000_0000);
        if top.mul(m).le(n) {
            proof {
                assert(0x8000_0000_0000_0000 * m@ == m@ * 0x8000_0000_0000_0000) by (nonlinear_arith);
                lemma_div_is_ordered(m@ * 0x8000_0000_0000_0000, n@, m@);
                lemma_div_multiples_vanish(0x8000_0000_0000_0000, m@);
            }
            return i64::MAX;
        }
        let low = bottom.mul(m);
        if !low.le(n) {
            proof {
                assert((-0x8000_0000_0000_0000) * m@ == m@ * (-0x8000_0000_0000_0000)) by (nonlinear_arith);
                let below = m@ * (-0x8000_0000_0000_0000) - 1;
                lemma_div_is_ordered(n@, below, m@);
                assert(below == (-0x8000_0000_0000_0000 - 1) * m@ + (m@ - 1)) by (nonlinear_arith)
                    requires
                        below == m@ * (-0x8000_0000_0000_0000) - 1,
                ;
                lemma_fundamental_div_mod_converse(below, m@, -0x8000_0000_0000_0000 - 1, m@ - 1);
            }
            return i64::MIN;
        }
        let mut q: i128 = -0x8000_0000_0000_0000;
        let mut step: i128 = 0x1_0000_0000_0000_0000;
        let mut k: u32 = 64;
        proof {
            reveal_with_fuel(two_to, 65);
            assert(two_to(64) == 0x1_0000_0000_0000_0000);
            assert((q + step) * m@ == 0x8000_0000_0000_0000 * m@);
        }
        while k > 0
            invariant
                m@ > 0,
                k <= 64,
                step == two_to(k as nat),
                step >= 1,
                -0x8000_0000_0000_0000 <= q,
                q + step <= 0x8000_0000_0000_0000,
                q * m@ <= n@,
                n@ < (q + step) * m@,
            decreases k,
        {
            let half: i128 = step / 2;
            let candidate: i128 = q + half;
            assert(candidate + half == q + step);
            if Wide::from_i128(candidate).mul(m).le(n) {
                q = candidate;
            }
            step = half;
            k = k - 1;
        }
        proof {
            assert(two_to(0) == 1);
            assert((q + 1) * m@ == q * m@ + m@) by (nonlinear_arith);
            lemma_fundamental_div_mod_converse(n@, m@, q as int, n@ - q * m@);
        }
        q as i64
    }
}

} // verus!

use vstd::prelude::*;
use vstd::arithmetic::div_mod::{
    lemma_fundamental_div_mod, lemma_mod_multiples_basic, lemma_truncate_middle,
};
use crate::error::Error;

verus! {

/// Greatest common divisor by Euclid's rule.
#[verifier::opaque]
pub open spec fn gcd(a: nat, b: nat) -> nat
    decreases b,
{
    if b == 0 {
        a
    } else {
        gcd(b, a % b)
    }
}

/// The magnitude of `x`.
pub open spec fn abs(x: int) -> nat {
    if x < 0 {
        (-x) as nat
    } else {
        x as nat
    }
}

/// `x` is in the range of `i64`.
pub open spec fn fits_i64(x: int) -> bool {
    i64::MIN <= x <= i64::MAX
}

pub proof fn lemma_gcd_pos(a: nat, b: nat)
    requires
        a > 0 || b > 0,
    ensures
        gcd(a, b) > 0,
    decreases b,
{
    reveal(gcd);
    if b != 0 {
        lemma_gcd_pos(b, a % b);
    }
}

proof fn lemma_gcd_divides(a: nat, b: nat)
    requires
        a > 0 || b > 0,
    ensures
        gcd(a, b) > 0,
        a % gcd(a, b) == 0,
        b % gcd(a, b) == 0,
    decreases b,
{
    reveal(gcd);
    lemma_gcd_pos(a, b);
    if b == 0 {
        lemma_mod_multiples_basic(1, a as int);
        lemma_mod_multiples_basic(0, a as int);
    } else {
        let r = a % b;
        lemma_gcd_divides(b, r);
        let g = gcd(b, r) as int;
        lemma_fundamental_div_mod(b as int, g);
        lemma_fundamental_div_mod(r as int, g);
        lemma_fundamental_div_mod(a as int, b as int);
        let kb = b as int / g;
        let kr = r as int / g;
        let q = a as int / b as int;
        assert(a as int == (kb * q + kr) * g) by (nonlinear_arith)
            requires
                b as int == g * kb,
                r as int == g * kr,
                a as int == b as int * q + r as int,
        ;
        lemma_mod_multiples_basic(kb * q + kr, g);
    }
}

/// An exact rational number `num / den`, kept in lowest terms.
#[derive(Debug, Clone, Copy)]
pub struct Rational {
    pub num: i64,
    pub den: i64,
}

/// The lowest-terms form of `n / d`, if its parts fit in `i64`.
pub open spec fn reduce(n: int, d: int) -> Option<Rational> {
    let g = gcd(abs(n), abs(d)) as int;
    let m = abs(n) as int / g;
    let e = abs(d) as int / g;
    if m <= i64::MAX && e <= i64::MAX {
        Some(Rational { num: (if n < 0 { -m } else { m }) as i64, den: e as i64 })
    } else {
        None
    }
}

/// The outcome of an arithmetic operation whose exact result is `n / d`.
pub open spec fn outcome(n: int, d: int) -> Result<Rational, Error> {
    match reduce(n, d) {
        Some(r) => Ok(r),
        None => Err(Error::Overflow),
    }
}

proof fn lemma_gcd_scale(k: nat, a: nat, b: nat)
    requires
        k > 0,
    ensures
        gcd(k * a, k * b) == k * gcd(a, b),
    decreases b,
{
    reveal(gcd);
    if b == 0 {
        assert(k * b == 0) by (nonlinear_arith)
            requires
                b == 0,
        ;
    } else {
        assert(k * b > 0) by (nonlinear_arith)
            requires
                k > 0,
                b > 0,
        ;
        lemma_truncate_middle(a as int, k as int, b as int);
        assert((k * a) % (k * b) == k * (a % b));
        lemma_gcd_scale(k, b, a % b);
    }
}

/// Dividing both parts by their greatest common divisor leaves no common divisor.
proof fn lemma_reduced_coprime(m: nat, e: nat)
    requires
        e > 0,
    ensures
        gcd(m / gcd(m, e), e / gcd(m, e)) == 1,
{
    lemma_gcd_divides(m, e);
    let g = gcd(m, e);
    lemma_fundamental_div_mod(m as int, g as int);
    lemma_fundamental_div_mod(e as int, g as int);
    let (a, b) = (m / g, e / g);
    assert(g * a == m && g * b == e);
    lemma_gcd_scale(g, a, b);
    assert(gcd(a, b) == 1) by (nonlinear_arith)
        requires
            g == g * gcd(a, b),
            g > 0,
    ;
}

/// A successful outcome is well formed and stands for `n / d`.
pub proof fn lemma_outcome(n: int, d: int)
    requires
        d > 0,
    ensures
        outcome(n, d) matches Ok(z) ==> z.wf() && z.is_quotient(n, d),
{
    lemma_gcd_divides(abs(n), abs(d));
    lemma_reduced_coprime(abs(n), abs(d));
    let g = gcd(abs(n), abs(d)) as int;
    let m = abs(n) as int;
    lemma_fundamental_div_mod(d, g);
    lemma_fundamental_div_mod(m, g);
    let qm = m / g;
    let qd = d / g;
    assert(qd > 0) by (nonlinear_arith)
        requires
            d == g * qd + d % g,
            d % g == 0,
            d > 0,
            g > 0,
    ;
    if let Ok(z) = outcome(n, d) {
        assert(qm * d == m * qd) by (nonlinear_arith)
            requires
                m == g * qm,
                d == g * qd,
        ;
        assert(z.num * d == n * z.den) by (nonlinear_arith)
            requires
                qm * d == m * qd,
                n < 0 ==> m == -n && z.num == -qm,
                n >= 0 ==> m == n && z.num == qm,
                z.den == qd,
        ;
    }
}

impl Rational {
    /// A rational is well formed when its denominator is positive and shares
    /// no divisor above one with its numerator.
    pub open spec fn wf(self) -> bool {
        self.den > 0 && gcd(abs(self.num as int), self.den as nat) == 1
    }

    /// Same value: the cross products agree.
    pub open spec fn eqv(self, o: Rational) -> bool {
        self.num * o.den == o.num * self.den
    }

    /// Not greater in value.
    pub open spec fn le(self, o: Rational) -> bool {
        self.num * o.den <= o.num * self.den
    }

    /// `self` stands for the quotient `n / d` (with `d > 0`).
    pub open spec fn is_quotient(self, n: int, d: int) -> bool {
        self.num * d == n * self.den
    }

    /// The integer `n` as a rational.
    pub fn from_int(n: i64) -> (r: Rational)
        ensures
            r.wf(),
            r.num == n,
            r.den == 1,
    {
        proof {
            reveal_with_fuel(gcd, 2);
        }
        Rational { num: n, den: 1 }
    }

    /// Exact comparison of values.
    pub fn equals(&self, o: &Rational) -> (r: bool)
        ensures
            r == self.eqv(*o),
    {
        proof {
            lemma_mul_i64(self.num as int, o.den as int);
            lemma_mul_i64(o.num as int, self.den as int);
        }
        (self.num as i128) * (o.den as i128) == (o.num as i128) * (self.den as i128)
    }

    /// Whether `self` is not greater than `o` in value.
    pub fn less_eq(&self, o: &Rational) -> (r: bool)
        ensures
            r == self.le(*o),
    {
        proof {
            lemma_mul_i64(self.num as int, o.den as int);
            lemma_mul_i64(o.num as int, self.den as int);
        }
        (self.num as i128) * (o.den as i128) <= (o.num as i128) * (self.den as i128)
    }

    /// Lowest terms of `n / d`, or `Overflow` when they do not fit in `i64`.
    pub(crate) fn make(n: i128, d: i128) -> (r: Result<Rational, Error>)
        requires
            d > 0,
            n > i128::MIN,
        ensures
            r == outcome(n as int, d as int),
            r matches Ok(z) ==> z.wf() && z.is_quotient(n as int, d as int),
    {
        let m: u128 = if n < 0 { (-n) as u128 } else { n as u128 };
        let e: u128 = d as u128;
        let g = gcd_u128(m, e);
        proof {
            lemma_gcd_divides(m as nat, e as nat);
            lemma_reduced_coprime(m as nat, e as nat);
        }
        let rm = m / g;
        let re = e / g;
        if rm > i64::MAX as u128 || re > i64::MAX as u128 {
            return Err(Error::Overflow);
        }
        let num: i64 = if n < 0 { -(rm as i64) } else { rm as i64 };
        let z = Rational { num, den: re as i64 };
        proof {
            let gi = g as int;
            lemma_fundamental_div_mod(m as int, gi);
            lemma_fundamental_div_mod(e as int, gi);
            assert(m as int == gi * (rm as int));
            assert(e as int == gi * (re as int));
            assert(re > 0) by (nonlinear_arith)
                requires
                    e as int == gi * (re as int),
                    e > 0,
                    gi > 0,
                    re >= 0,
            ;
            assert((rm as int) * (e as int) == (m as int) * (re as int)) by (nonlinear_arith)
                requires
                    m as int == gi * (rm as int),
                    e as int == gi * (re as int),
            ;
            assert(z.is_quotient(n as int, d as int)) by (nonlinear_arith)
                requires
                    (rm as int) * (e as int) == (m as int) * (re as int),
                    e as int == d as int,
                    n < 0 ==> m as int == -(n as int) && z.num as int == -(rm as int),
                    n >= 0 ==> m as int == n as int && z.num as int == rm as int,
                    z.den as int == re as int,
            ;
        }
        Ok(z)
    }

    /// Exact sum.
    pub fn add(&self, o: &Rational) -> (r: Result<Rational, Error>)
        requires
            self.wf(),
            o.wf(),
        ensures
            r == outcome(self.num * o.den + o.num * self.den, self.den * o.den),
            r matches Ok(z) ==> z.wf() && z.is_quotient(
                self.num * o.den + o.num * self.den,
                self.den * o.den,
            ),
    {
        proof {
            lemma_cross_bounds(*self, *o);
        }
        let a = (self.num as i128) * (o.den as i128);
        let b = (o.num as i128) * (self.den as i128);
        let d = (self.den as i128) * (o.den as i128);
        Self::make(a + b, d)
    }

    /// Exact difference.
    pub fn sub(&self, o: &Rational) -> (r: Result<Rational, Error>)
        requires
            self.wf(),
            o.wf(),
        ensures
            r == outcome(self.num * o.den - o.num * self.den, self.den * o.den),
            r matches Ok(z) ==> z.wf() && z.is_quotient(
                self.num * o.den - o.num * self.den,
                self.den * o.den,
            ),
    {
        proof {
            lemma_cross_bounds(*self, *o);
        }
        let a = (self.num as i128) * (o.den as i128);
        let b = (o.num as i128) * (self.den as i128);
        let d = (self.den as i128) * (o.den as i128);
        Self::make(a - b, d)
    }

    /// Exact product.
    pub fn mul(&self, o: &Rational) -> (r: Result<Rational, Error>)
        requires
            self.wf(),
            o.wf(),
        ensures
            r == outcome(self.num * o.num, self.den * o.den),
            r matches Ok(z) ==> z.wf() && z.is_quotient(self.num * o.num, self.den * o.den),
    {
        proof {
            lemma_cross_bounds(*self, *o);
            lemma_mul_i64(self.num as int, o.num as int);
        }
        let a = (self.num as i128) * (o.num as i128);
        let d = (self.den as i128) * (o.den as i128);
        Self::make(a, d)
    }

    /// Exact quotient; `DivisionByZero` when `o` is zero.
    pub fn div(&self, o: &Rational) -> (r: Result<Rational, Error>)
        requires
            self.wf(),
            o.wf(),
        ensures
            o.num == 0 ==> r == Err::<Rational, Error>(Error::DivisionByZero),
            o.num > 0 ==> r == outcome(self.num * o.den, self.den * o.num),
            o.num < 0 ==> r == outcome(-(self.num * o.den), self.den * -o.num),
            r matches Ok(z) ==> z.wf() && z.is_quotient(self.num * o.den, self.den * o.num),
    {
        if o.num == 0 {
            return Err(Error::DivisionByZero);
        }
        proof {
            lemma_cross_bounds(*self, *o);
        }
        let a = (self.num as i128) * (o.den as i128);
        let d = (self.den as i128) * (o.num as i128);
        proof {
            assert(o.num < 0 ==> self.den * o.num < 0) by (nonlinear_arith)
                requires self.den > 0;
            assert(o.num > 0 ==> self.den * o.num > 0) by (nonlinear_arith)
                requires self.den > 0;
            assert(self.den * -o.num == -(self.den * o.num)) by (nonlinear_arith);
        }
        if d < 0 {
            let r = Self::make(-a, -d);
            proof {
                if let Ok(z) = r {
                    assert(z.is_quotient(self.num * o.den, self.den * o.num)) by (nonlinear_arith)
                        requires
                            z.num * (-d as int) == (-a as int) * z.den,
                            a as int == self.num * o.den,
                            d as int == self.den * o.num,
                    ;
                }
            }
            r
        } else {
            Self::make(a, d)
        }
    }
}

proof fn lemma_mul_bound(a: int, d: int)
    requires
        fits_i64(a),
        0 < d <= i64::MAX,
    ensures
        -0x4000_0000_0000_0000_0000_0000_0000_0000 < a * d < 0x4000_0000_0000_0000_0000_0000_0000_0000,
{
    if a >= 0 {
        assert(a * d <= 0x8000_0000_0000_0000 * d) by (nonlinear_arith)
            requires a <= 0x8000_0000_0000_0000, d > 0;
        assert(0x8000_0000_0000_0000 * d < 0x4000_0000_0000_0000_0000_0000_0000_0000) by (nonlinear_arith)
            requires d < 0x8000_0000_0000_0000;
        assert(a * d >= 0) by (nonlinear_arith)
            requires a >= 0, d > 0;
    } else {
        assert(a * d >= -0x8000_0000_0000_0000 * d) by (nonlinear_arith)
            requires a >= -0x8000_0000_0000_0000, d > 0;
        assert(0x8000_0000_0000_0000 * d < 0x4000_0000_0000_0000_0000_0000_0000_0000) by (nonlinear_arith)
            requires d < 0x8000_0000_0000_0000;
        assert(a * d < 0) by (nonlinear_arith)
            requires a < 0, d > 0;
    }
}

proof fn lemma_cross_bounds(x: Rational, y: Rational)
    requires
        x.wf(),
        y.wf(),
    ensures
        -0x4000_0000_0000_0000_0000_0000_0000_0000 < x.num * y.den
            < 0x4000_0000_0000_0000_0000_0000_0000_0000,
        -0x4000_0000_0000_0000_0000_0000_0000_0000 < y.num * x.den
            < 0x4000_0000_0000_0000_0000_0000_0000_0000,
        -0x4000_0000_0000_0000_0000_0000_0000_0000 < x.den * y.num
            < 0x4000_0000_0000_0000_0000_0000_0000_0000,
        0 < x.den * y.den < 0x4000_0000_0000_0000_0000_0000_0000_0000,
{
    lemma_mul_bound(x.num as int, y.den as int);
    lemma_mul_bound(y.num as int, x.den as int);
    lemma_mul_bound(y.num as int, x.den as int);
    assert(x.den * y.num == y.num * x.den) by (nonlinear_arith);
    lemma_mul_bound(x.den as int, y.den as int);
    assert(x.den * y.den > 0) by (nonlinear_arith)
        requires x.den > 0, y.den > 0;
}

proof fn lemma_mul_i64(a: int, c: int)
    requires
        fits_i64(a),
        fits_i64(c),
    ensures
        -0x4000_0000_0000_0000_0000_0000_0000_0000 < a * c <= 0x4000_0000_0000_0000_0000_0000_0000_0000,
{
    let m = 0x8000_0000_0000_0000int;
    assert(-m <= a <= m && -m <= c <= m);
    assert(a * c <= m * m) by (nonlinear_arith)
        requires -m <= a <= m, -m <= c <= m, m > 0;
    assert(a * c >= -(m * m)) by (nonlinear_arith)
        requires -m <= a <= m, -m <= c <= m, m > 0;
    if a * c == -(m * m) {
        assert(a == m || c == m) by (nonlinear_arith)
            requires -m <= a <= m, -m <= c <= m, m > 0, a * c == -(m * m);
    }
    assert(m * m == 0x4000_0000_0000_0000_0000_0000_0000_0000);
}

/// Greatest common divisor of two unsigned integers.
fn gcd_u128(a: u128, b: u128) -> (g: u128)
    ensures
        g == gcd(a as nat, b as nat),
{
    let mut x = a;
    let mut y = b;
    proof {
        reveal(gcd);
    }
    while y != 0
        invariant
            gcd(x as nat, y as nat) == gcd(a as nat, b as nat),
        decreases y,
    {
        proof {
            reveal(gcd);
        }
        let t = x % y;
        x = y;
        y = t;
    }
    x
}

} // verus!

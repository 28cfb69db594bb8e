//! Exact rational scalars: the numbers that stand at the leaves of a game.
use vstd::prelude::*;
use vstd::arithmetic::div_mod::{lemma_div_by_multiple, lemma_fundamental_div_mod, lemma_mod_multiples_basic};

verus! {

/// Greatest common divisor of two naturals, by Euclid's rule.
pub open spec fn gcd_nat(a: nat, b: nat) -> nat
    decreases b,
{
    if b == 0 {
        a
    } else {
        gcd_nat(b, a % b)
    }
}

pub open spec fn abs_int(x: int) -> nat {
    if x < 0 {
        (-x) as nat
    } else {
        x as nat
    }
}

/// `n / d` divided through by the greatest common divisor of its parts.
pub open spec fn reduce_spec(n: int, d: int) -> Frac {
    let g = gcd_nat(abs_int(n), abs_int(d)) as int;
    Frac { numer: (n / g) as i64, denom: (d / g) as i64 }
}

/// The unreduced numerator of `a + b`.
pub open spec fn sum_numer(a: Frac, b: Frac) -> int {
    a.numer * b.denom + b.numer * a.denom
}

/// The unreduced denominator of `a + b`.
pub open spec fn sum_denom(a: Frac, b: Frac) -> int {
    a.denom * b.denom
}

/// `a + b` as `add` computes it: the cross sum over the product of the
/// denominators, reduced.
pub open spec fn add_spec(a: Frac, b: Frac) -> Frac {
    reduce_spec(sum_numer(a, b), sum_denom(a, b))
}

/// The parts of the unreduced sum stay within 64 bits.
pub open spec fn sum_fits(a: Frac, b: Frac) -> bool {
    &&& abs_int(sum_numer(a, b)) <= i64::MAX
    &&& abs_int(sum_denom(a, b)) <= i64::MAX
}

/// `a` and `b` denote the same rational number.
pub open spec fn same_value(a: Frac, b: Frac) -> bool {
    a.numer * b.denom == b.numer * a.denom
}

/// `a <= b` as rational numbers (for positive denominators).
pub open spec fn le_value(a: Frac, b: Frac) -> bool {
    a.numer * b.denom <= b.numer * a.denom
}

/// `a < b` as rational numbers (for positive denominators).
pub open spec fn lt_value(a: Frac, b: Frac) -> bool {
    a.numer * b.denom < b.numer * a.denom
}

/// A fraction `numer / denom` with 64-bit parts.
#[derive(Clone, Copy, Debug)]
pub struct Frac {
    pub numer: i64,
    pub denom: i64,
}

impl Frac {
    /// A well-formed scalar: a positive denominator, and a numerator whose
    /// negation is representable.
    pub open spec fn wf(self) -> bool {
        self.denom > 0 && self.numer > i64::MIN
    }

    /// The additive inverse: the numerator negated.
    pub open spec fn neg_spec(self) -> Frac {
        Frac { numer: -self.numer as i64, denom: self.denom }
    }

    /// Greatest common divisor of the magnitudes of `a` and `b`.
    pub fn gcd(a: i64, b: i64) -> (r: i64)
        requires
            a > i64::MIN,
            b > i64::MIN,
        ensures
            r >= 0,
            r as int == gcd_nat(abs_int(a as int), abs_int(b as int)),
    {
        let mut x: u64 = if a < 0 { (-a) as u64 } else { a as u64 };
        let mut y: u64 = if b < 0 { (-b) as u64 } else { b as u64 };
        while y != 0
            invariant
                gcd_nat(x as nat, y as nat) == gcd_nat(abs_int(a as int), abs_int(b as int)),
                x <= i64::MAX,
                y <= i64::MAX,
            decreases y,
        {
            let t = y;
            y = x % y;
            x = t;
        }
        x as i64
    }

    /// `numer / denom` divided through by the greatest common divisor of its
    /// parts.
    pub fn reduce(numer: i64, denom: i64) -> (r: Frac)
        requires
            denom != 0,
            numer > i64::MIN,
            denom > i64::MIN,
        ensures
            r == reduce_spec(numer as int, denom as int),
            same_value(r, Frac { numer, denom }),
            denom > 0 ==> r.wf(),
    {
        let g = Frac::gcd(numer, denom);
        proof {
            lemma_reduce(numer as int, denom as int);
        }
        Frac { numer: Frac::div_exact(numer, g), denom: Frac::div_exact(denom, g) }
    }

    /// `x / g` for a positive `g` that divides `x`.
    fn div_exact(x: i64, g: i64) -> (r: i64)
        requires
            g > 0,
            x > i64::MIN,
            (x as int) % (g as int) == 0,
        ensures
            r == x / g,
    {
        proof {
            lemma_fundamental_div_mod(x as int, g as int);
            if x < 0 {
                assert(x / g < 0) by (nonlinear_arith)
                    requires
                        x == g * (x / g),
                        x < 0,
                        g > 0,
                ;
                lemma_div_by_multiple(-(x / g), g as int);
                assert(-x == -(x / g) * g) by (nonlinear_arith)
                    requires
                        x == g * (x / g),
                ;
            }
        }
        if x < 0 {
            -((-x) / g)
        } else {
            x / g
        }
    }

    /// The sum of two fractions: the cross sum over the product of the
    /// denominators, reduced.
    pub fn add(&self, other: &Frac) -> (r: Frac)
        requires
            self.denom != 0,
            other.denom != 0,
            sum_fits(*self, *other),
        ensures
            r == add_spec(*self, *other),
            same_value(r, Frac { numer: sum_numer(*self, *other) as i64, denom: sum_denom(*self, *other) as i64 }),
            self.denom > 0 && other.denom > 0 ==> r.wf(),
    {
        let (n1, d1, n2, d2) = (self.numer as i128, self.denom as i128, other.numer as i128, other.denom as i128);
        proof {
            lemma_product_fits(n1 as int, d2 as int);
            lemma_product_fits(n2 as int, d1 as int);
            lemma_product_fits(d1 as int, d2 as int);
        }
        let cross = move || -> (v: i128)
            ensures
                v == n1 * d2 + n2 * d1,
        {
            n1 * d2 + n2 * d1
        };
        let base = move || -> (v: i128)
            ensures
                v == d1 * d2,
        {
            d1 * d2
        };
        let (nn, nd) = rayon::join(cross, base);
        proof {
            assert(d1 * d2 != 0) by (nonlinear_arith)
                requires
                    d1 != 0,
                    d2 != 0,
            ;
            assert(d1 > 0 && d2 > 0 ==> d1 * d2 > 0) by (nonlinear_arith);
        }
        Frac::reduce(nn as i64, nd as i64)
    }

    /// Whether `self <= other` as rational numbers.
    pub fn le_frac(&self, other: &Frac) -> (r: bool)
        ensures
            r == le_value(*self, *other),
    {
        proof {
            lemma_product_fits(self.numer as int, other.denom as int);
            lemma_product_fits(other.numer as int, self.denom as int);
        }
        (self.numer as i128) * (other.denom as i128) <= (other.numer as i128) * (self.denom as i128)
    }

    /// Whether `self < other` as rational numbers.
    pub fn lt_frac(&self, other: &Frac) -> (r: bool)
        ensures
            r == lt_value(*self, *other),
    {
        proof {
            lemma_product_fits(self.numer as int, other.denom as int);
            lemma_product_fits(other.numer as int, self.denom as int);
        }
        (self.numer as i128) * (other.denom as i128) < (other.numer as i128) * (self.denom as i128)
    }

    /// The additive inverse.
    pub fn neg(&self) -> (r: Frac)
        requires
            self.numer > i64::MIN,
        ensures
            r == self.neg_spec(),
    {
        Frac { numer: -self.numer, denom: self.denom }
    }
}

impl PartialEq for Frac {
    /// Equality of the rational numbers denoted.
    fn eq(&self, other: &Frac) -> (r: bool) {
        proof {
            lemma_product_fits(self.numer as int, other.denom as int);
            lemma_product_fits(other.numer as int, self.denom as int);
        }
        (self.numer as i128) * (other.denom as i128) == (other.numer as i128) * (self.denom as i128)
    }
}

impl vstd::std_specs::cmp::PartialEqSpecImpl for Frac {
    open spec fn obeys_eq_spec() -> bool {
        true
    }

    open spec fn eq_spec(&self, other: &Frac) -> bool {
        same_value(*self, *other)
    }
}

/// The product of two 64-bit integers fits in 128 bits.
proof fn lemma_product_fits(a: int, b: int)
    requires
        i64::MIN <= a <= i64::MAX,
        i64::MIN <= b <= i64::MAX,
    ensures
        i128::MIN < a * b < i128::MAX,
{
    assert(-0x8000_0000_0000_0000 * 0x8000_0000_0000_0000 <= a * b <= 0x8000_0000_0000_0000
        * 0x8000_0000_0000_0000) by (nonlinear_arith)
        requires
            -0x8000_0000_0000_0000 <= a <= 0x7fff_ffff_ffff_ffff,
            -0x8000_0000_0000_0000 <= b <= 0x7fff_ffff_ffff_ffff,
    ;
}

/// The greatest common divisor divides both arguments, and is positive
/// unless both are zero.
pub proof fn lemma_gcd_divides(a: nat, b: nat)
    ensures
        a > 0 || b > 0 ==> gcd_nat(a, b) > 0,
        gcd_nat(a, b) > 0 ==> a % gcd_nat(a, b) == 0 && b % gcd_nat(a, b) == 0,
        gcd_nat(a, b) <= a || gcd_nat(a, b) <= b,
    decreases b,
{
    let g = gcd_nat(a, b);
    if b == 0 {
        if a > 0 {
            lemma_mod_multiples_basic(1, a as int);
            lemma_mod_multiples_basic(0, a as int);
        }
    } else {
        let r = a % b;
        lemma_gcd_divides(b, r);
        let gi = g as int;
        lemma_fundamental_div_mod(a as int, b as int);
        lemma_fundamental_div_mod(b as int, gi);
        lemma_fundamental_div_mod(r as int, gi);
        let k = (b as int / gi) * (a as int / b as int) + r as int / gi;
        assert(a as int == k * gi) by (nonlinear_arith)
            requires
                a as int == b as int * (a as int / b as int) + r as int,
                b as int == gi * (b as int / gi),
                r as int == gi * (r as int / gi),
                k == (b as int / gi) * (a as int / b as int) + r as int / gi,
        ;
        lemma_mod_multiples_basic(k, gi);
        assert(g <= b);
    }
}

/// A positive `g` divides `x` exactly where it divides its magnitude.
pub proof fn lemma_divides_signed(x: int, g: int)
    requires
        g > 0,
    ensures
        (abs_int(x) as int) % g == 0 <==> x % g == 0,
{
    if x % g == 0 {
        lemma_fundamental_div_mod(x, g);
        let q = x / g;
        let kq = if x < 0 { -q } else { q };
        assert(abs_int(x) as int == kq * g) by (nonlinear_arith)
            requires
                x == g * q,
                kq == (if x < 0 { -q } else { q }),
                abs_int(x) as int == (if x < 0 { -x } else { x }),
        ;
        lemma_mod_multiples_basic(kq, g);
    }
    if (abs_int(x) as int) % g == 0 {
        lemma_divides_from_abs(x, g);
    }
}

proof fn lemma_divides_from_abs(x: int, g: int)
    requires
        g > 0,
        (abs_int(x) as int) % g == 0,
    ensures
        x % g == 0,
{
    lemma_fundamental_div_mod(abs_int(x) as int, g);
    let k = abs_int(x) as int / g;
    let kx = if x < 0 { -k } else { k };
    assert(x == kx * g) by (nonlinear_arith)
        requires
            abs_int(x) == g * k,
            kx == (if x < 0 { -k } else { k }),
            x == (if x < 0 { -(abs_int(x) as int) } else { abs_int(x) as int }),
    ;
    lemma_mod_multiples_basic(kx, g);
}

/// Dividing by the greatest common divisor is exact and keeps the value.
proof fn lemma_reduce(n: int, d: int)
    requires
        d != 0,
        i64::MIN < n <= i64::MAX,
        i64::MIN < d <= i64::MAX,
    ensures
        ({
            let g = gcd_nat(abs_int(n), abs_int(d)) as int;
            &&& g > 0
            &&& n % g == 0
            &&& d % g == 0
            &&& n == g * (n / g)
            &&& d == g * (d / g)
            &&& i64::MIN < n / g <= i64::MAX
            &&& i64::MIN < d / g <= i64::MAX
            &&& (d > 0 ==> d / g > 0)
            &&& same_value(reduce_spec(n, d), Frac { numer: n as i64, denom: d as i64 })
        }),
{
    let g = gcd_nat(abs_int(n), abs_int(d)) as int;
    lemma_gcd_divides(abs_int(n), abs_int(d));
    lemma_fundamental_div_mod(n, g);
    lemma_fundamental_div_mod(d, g);
    lemma_divides_signed(n, g);
    lemma_divides_signed(d, g);
    let (qn, qd) = (n / g, d / g);
    assert(abs_int(qn) <= abs_int(n) && abs_int(qd) <= abs_int(d)) by (nonlinear_arith)
        requires
            g >= 1,
            n == g * qn,
            d == g * qd,
    ;
    assert(d > 0 ==> qd > 0) by (nonlinear_arith)
        requires
            g >= 1,
            d == g * qd,
    ;
    assert(qn * d == n * qd) by (nonlinear_arith)
        requires
            n == g * qn,
            d == g * qd,
    ;
}

} // verus!

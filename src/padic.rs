//! p-adic expansions of fractions, and sums of expansions read as decimal
//! numbers.
use vstd::prelude::*;
use vstd::arithmetic::div_mod::{lemma_div_by_multiple, lemma_fundamental_div_mod};
use crate::frac::{Frac, abs_int, add_spec, lemma_divides_signed, sum_fits};
use crate::text::{int_text, push_int};

verus! {

/// A fraction with its digit expansion in base `p`, lowest digit first.
#[derive(Debug)]
pub struct Padic {
    pub v: Frac,
    pub p: i64,
    pub expanded: Vec<i64>,
}

/// The least digit `k`, from `k` up to `p - 1`, for which `p` divides
/// `a - k * b`.
pub open spec fn digit_from(a: int, b: int, p: int, k: int) -> Option<int>
    decreases p - k,
{
    if k < 0 || k >= p {
        None
    } else if (a - k * b) % p == 0 {
        Some(k)
    } else {
        digit_from(a, b, p, k + 1)
    }
}

/// The first `n` digits of `a / b` in base `p`, lowest first: each digit is
/// the least `k` for which `p` divides `a - k * b`, and `a` then becomes
/// `(a - k * b) / p`. `None` where some step has no such digit.
pub open spec fn expansion(a: int, b: int, p: int, n: nat) -> Option<Seq<i64>>
    decreases n,
{
    if n == 0 {
        Some(Seq::empty())
    } else {
        match digit_from(a, b, p, 0) {
            Some(k) => match expansion((a - k * b) / p, b, p, (n - 1) as nat) {
                Some(rest) => Some(seq![k as i64] + rest),
                None => None,
            },
            None => None,
        }
    }
}

/// `a - k * b`, computed wide.
fn candidate(a: i64, k: i64, b: i64) -> (r: i128)
    requires
        0 <= k,
        a > i64::MIN,
        b > i64::MIN,
    ensures
        r == a - k * b,
        r > i128::MIN,
        abs_int(r as int) <= abs_int(a as int) + k * abs_int(b as int),
{
    assert(abs_int(k * b) == k * abs_int(b as int) && k * abs_int(b as int) <= 0x7fff_ffff_ffff_ffff
        * 0x7fff_ffff_ffff_ffff) by (nonlinear_arith)
        requires
            0 <= k <= 0x7fff_ffff_ffff_ffff,
            -0x7fff_ffff_ffff_ffff <= b <= 0x7fff_ffff_ffff_ffff,
            abs_int(b as int) == (if b < 0 { -b } else { b as int }),
            abs_int(k * b) == (if k * b < 0 { -(k * b) } else { k * b }),
    ;
    (a as i128) - (k as i128) * (b as i128)
}

/// Whether the positive `p` divides `x`.
fn divides(x: i128, p: i128) -> (r: bool)
    requires
        p > 0,
        x > i128::MIN,
    ensures
        r == ((x as int) % (p as int) == 0),
{
    proof {
        lemma_divides_signed(x as int, p as int);
    }
    let m: u128 = if x < 0 {
        (-x) as u128
    } else {
        x as u128
    };
    m % (p as u128) == 0
}

/// `x / p` for a positive `p` that divides `x`.
fn div_exact_wide(x: i128, p: i128) -> (r: i128)
    requires
        p > 0,
        x > i128::MIN,
        (x as int) % (p as int) == 0,
    ensures
        r == x / p,
{
    proof {
        lemma_fundamental_div_mod(x as int, p as int);
        if x < 0 {
            assert(x / p < 0) by (nonlinear_arith)
                requires
                    x == p * (x / p),
                    x < 0,
                    p > 0,
            ;
            lemma_div_by_multiple(-(x / p), p as int);
            assert(-x == -(x / p) * p) by (nonlinear_arith)
                requires
                    x == p * (x / p),
            ;
        }
    }
    if x < 0 {
        -((-x) / p)
    } else {
        x / p
    }
}

/// The first `precision` digits of the fraction in base `p`, lowest first:
/// each digit is the least `k` below `p` for which `p` divides `a - k * b`,
/// and `a` then becomes `(a - k * b) / p`, starting from the numerator `a`
/// over the denominator `b`. `None` exactly where some step has no such
/// digit.
pub fn expand(f: &Frac, p: i64, precision: usize) -> (r: Option<Padic>)
    requires
        p >= 1,
        f.numer > i64::MIN,
        f.denom > i64::MIN,
    ensures
        r is Some <==> expansion(f.numer as int, f.denom as int, p as int, precision as nat) is Some,
        r matches Some(x) ==> x.expanded@ == expansion(
            f.numer as int,
            f.denom as int,
            p as int,
            precision as nat,
        )->0 && x.v == *f && x.p == p,
{
    let ghost a0 = f.numer as int;
    let b = f.denom;
    let mut a: i64 = f.numer;
    let mut expanded: Vec<i64> = Vec::new();
    let mut i: usize = 0;
    while i < precision
        invariant
            a0 == f.numer as int,
            p >= 1,
            b == f.denom,
            b > i64::MIN,
            a > i64::MIN,
            i <= precision,
            expansion(a0, b as int, p as int, precision as nat) is Some <==> expansion(
                a as int,
                b as int,
                p as int,
                (precision - i) as nat,
            ) is Some,
            expansion(a as int, b as int, p as int, (precision - i) as nat) is Some ==> expansion(
                a0,
                b as int,
                p as int,
                precision as nat,
            )->0 == expanded@ + expansion(a as int, b as int, p as int, (precision - i) as nat)->0,
        decreases precision - i,
    {
        let mut k: i64 = 0;
        while k < p && !divides(candidate(a, k, b), p as i128)
            invariant
                a0 == f.numer as int,
                0 <= k <= p,
                p >= 1,
                a > i64::MIN,
                b > i64::MIN,
                expansion(a0, b as int, p as int, precision as nat) is Some <==> expansion(
                    a as int,
                    b as int,
                    p as int,
                    (precision - i) as nat,
                ) is Some,
                digit_from(a as int, b as int, p as int, 0) == digit_from(
                    a as int,
                    b as int,
                    p as int,
                    k as int,
                ),
            decreases p - k,
        {
            k = k + 1;
        }
        if k == p {
            proof {
                assert(digit_from(a as int, b as int, p as int, p as int) is None);
                assert(expansion(a as int, b as int, p as int, (precision - i) as nat) is None);
            }
            return None;
        }
        let x = candidate(a, k, b);
        let next = div_exact_wide(x, p as i128);
        proof {
            let m = if abs_int(a as int) >= abs_int(b as int) {
                abs_int(a as int)
            } else {
                abs_int(b as int)
            };
            assert(abs_int(x as int) <= p * m) by (nonlinear_arith)
                requires
                    abs_int(x as int) <= abs_int(a as int) + k * abs_int(b as int),
                    abs_int(a as int) <= m,
                    abs_int(b as int) <= m,
                    0 <= k < p,
            ;
            lemma_fundamental_div_mod(x as int, p as int);
            assert(abs_int(next as int) <= m) by (nonlinear_arith)
                requires
                    x == p * next,
                    abs_int(x as int) <= p * m,
                    p >= 1,
                    abs_int(next as int) == (if next < 0 { -next } else { next as int }),
                    abs_int(x as int) == (if x < 0 { -x } else { x as int }),
            ;
            let ghost rest = expansion(next as int, b as int, p as int, (precision - i - 1) as nat);
            if rest is Some {
                assert(expanded@.push(k) + rest->0 =~= expanded@ + (seq![k] + rest->0));
            }
        }
        expanded.push(k);
        a = next as i64;
        i = i + 1;
    }
    proof {
        assert(expanded@ + Seq::<i64>::empty() =~= expanded@);
    }
    Some(Padic { v: *f, p, expanded })
}

/// The digits read as a decimal number, lowest digit first:
/// `e[0] + 10 * e[1] + 100 * e[2] + ...`.
pub open spec fn digits_number(e: Seq<i64>) -> int
    decreases e.len(),
{
    if e.len() == 0 {
        0
    } else {
        e[0] + 10 * digits_number(e.drop_first())
    }
}

/// Reading the digits from the highest down stays within 64 bits at every
/// step.
pub open spec fn digits_fit(e: Seq<i64>) -> bool {
    forall|i: int|
        0 <= i <= e.len() ==> i64::MIN < #[trigger] digits_number(e.subrange(i, e.len() as int))
            <= i64::MAX
}

/// The decimal digits of `m`, lowest first.
pub open spec fn low_digits(m: nat) -> Seq<i64>
    decreases m,
{
    if m < 10 {
        seq![m as i64]
    } else {
        seq![(m % 10) as i64] + low_digits(m / 10)
    }
}

pub open spec fn abs_of(x: int) -> nat {
    if x < 0 {
        (-x) as nat
    } else {
        x as nat
    }
}

/// The digits read as a decimal number, lowest digit first.
fn converter(expanded: &Vec<i64>) -> (r: i64)
    requires
        digits_fit(expanded@),
    ensures
        r == digits_number(expanded@),
{
    let ghost e = expanded@;
    let mut acc: i64 = 0;
    let mut i: usize = expanded.len();
    proof {
        assert(e.subrange(e.len() as int, e.len() as int) =~= Seq::<i64>::empty());
    }
    while i > 0
        invariant
            e == expanded@,
            digits_fit(e),
            i <= e.len(),
            acc == digits_number(e.subrange(i as int, e.len() as int)),
        decreases i,
    {
        let ghost rest = e.subrange(i as int, e.len() as int);
        let ghost next = e.subrange(i - 1, e.len() as int);
        proof {
            assert(next.drop_first() =~= rest);
            assert(i64::MIN < digits_number(next) <= i64::MAX);
        }
        let v = (acc as i128) * 10 + (expanded[i - 1] as i128);
        acc = v as i64;
        i = i - 1;
    }
    proof {
        assert(e.subrange(0, e.len() as int) =~= e);
    }
    acc
}

/// The decimal digits of the magnitude of `n`, lowest first.
fn back_converter(n: i64) -> (r: Vec<i64>)
    ensures
        r@ == low_digits(abs_of(n as int)),
{
    let mut m: u64 = if n < 0 {
        (-(n as i128)) as u64
    } else {
        n as u64
    };
    let mut out: Vec<i64> = Vec::new();
    loop
        invariant
            out@ + low_digits(m as nat) == low_digits(abs_of(n as int)),
        decreases m,
    {
        let ghost before = out@;
        out.push((m % 10) as i64);
        if m < 10 {
            proof {
                assert(out@ =~= before + low_digits(m as nat));
            }
            return out;
        }
        proof {
            assert(before + low_digits(m as nat) =~= out@ + low_digits((m / 10) as nat));
        }
        m = m / 10;
    }
}

/// The sum of two expansions: their values added as fractions, their digits
/// read as decimal numbers and added, the sum written back as decimal
/// digits of its magnitude, lowest first. The base is that of `p1`.
pub fn add_p_adic(p1: &Padic, p2: &Padic) -> (r: Padic)
    requires
        digits_fit(p1.expanded@),
        digits_fit(p2.expanded@),
        i64::MIN < digits_number(p1.expanded@) + digits_number(p2.expanded@) <= i64::MAX,
        p1.v.denom != 0,
        p2.v.denom != 0,
        sum_fits(p1.v, p2.v),
    ensures
        r.expanded@ == low_digits(abs_of(digits_number(p1.expanded@) + digits_number(p2.expanded@))),
        r.v == add_spec(p1.v, p2.v),
        r.p == p1.p,
{
    let first = || -> (v: i64)
        requires
            digits_fit(p1.expanded@),
        ensures
            v == digits_number(p1.expanded@),
    { converter(&p1.expanded) };
    let second = || -> (v: i64)
        requires
            digits_fit(p2.expanded@),
        ensures
            v == digits_number(p2.expanded@),
    { converter(&p2.expanded) };
    let (i1, i2) = rayon::join(first, second);
    let expanded = back_converter(i1 + i2);
    Padic { v: p1.v.add(&p2.v), p: p1.p, expanded }
}

/// The digits as text, highest first, each in decimal.
pub open spec fn digits_text(e: Seq<i64>) -> Seq<char>
    decreases e.len(),
{
    if e.len() == 0 {
        Seq::empty()
    } else {
        digits_text(e.drop_first()) + int_text(e[0] as int)
    }
}

impl Padic {
    /// The expansion as text: `...` and the digits, highest first.
    pub fn to_string(&self) -> (r: String)
        ensures
            r@ == seq!['.', '.', '.'] + digits_text(self.expanded@),
    {
        let ghost e = self.expanded@;
        let mut s = String::new();
        s.push('.');
        s.push('.');
        s.push('.');
        let mut i: usize = self.expanded.len();
        proof {
            assert(e.subrange(e.len() as int, e.len() as int) =~= Seq::<i64>::empty());
            assert(s@ =~= seq!['.', '.', '.'] + digits_text(e.subrange(i as int, e.len() as int)));
        }
        while i > 0
            invariant
                e == self.expanded@,
                i <= e.len(),
                s@ == seq!['.', '.', '.'] + digits_text(e.subrange(i as int, e.len() as int)),
            decreases i,
        {
            push_int(&mut s, self.expanded[i - 1]);
            proof {
                let next = e.subrange(i - 1, e.len() as int);
                assert(next.drop_first() =~= e.subrange(i as int, e.len() as int));
                assert(s@ =~= seq!['.', '.', '.'] + digits_text(next));
            }
            i = i - 1;
        }
        proof {
            assert(e.subrange(0, e.len() as int) =~= e);
        }
        s
    }
}

} // verus!

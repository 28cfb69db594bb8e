//! Writing numbers as decimal text.
use vstd::prelude::*;
use crate::frac::Frac;

verus! {

/// Relies on `String::push`: it appends one character at the end.
pub assume_specification[ String::push ](s: &mut String, ch: char)
    ensures
        final(s)@ == old(s)@.push(ch),
;

/// The most digits after the point: ten to that power still fits in 64 bits.
pub const MAX_FRACTION_DIGITS: usize = 18;

pub open spec fn pow10(k: nat) -> int
    decreases k,
{
    if k == 0 {
        1
    } else {
        10 * pow10((k - 1) as nat)
    }
}

/// The character of the decimal digit `d`.
pub open spec fn digit_char(d: int) -> char {
    (d + '0' as int) as char
}

/// The decimal digits of `n`, most significant first, without leading
/// zeros.
pub open spec fn nat_text(n: nat) -> Seq<char>
    decreases n,
{
    if n < 10 {
        seq![digit_char(n as int)]
    } else {
        nat_text(n / 10).push(digit_char((n % 10) as int))
    }
}

/// `n` in decimal, with a minus sign where it is negative.
pub open spec fn int_text(n: int) -> Seq<char> {
    if n < 0 {
        seq!['-'] + nat_text((-n) as nat)
    } else {
        nat_text(n as nat)
    }
}

/// The fewest places, from `k` up to the most digits after the point, after
/// which a fraction over `d` ends: the least such `j` with `d` dividing ten to
/// the `j`; zero where there is none.
pub open spec fn decimal_places(d: int, k: int) -> int
    decreases MAX_FRACTION_DIGITS + 1 - k,
{
    if k > MAX_FRACTION_DIGITS {
        0
    } else if pow10(k as nat) % d == 0 {
        k
    } else {
        decimal_places(d, k + 1)
    }
}

/// What `decimal_places` finds is a number of places after which the
/// fraction ends.
pub proof fn lemma_decimal_places(d: int, k: int)
    requires
        k >= 1,
    ensures
        decimal_places(d, k) > 0 ==> k <= decimal_places(d, k) <= MAX_FRACTION_DIGITS && pow10(
            decimal_places(d, k) as nat,
        ) % d == 0,
    decreases MAX_FRACTION_DIGITS + 1 - k,
{
    if k <= MAX_FRACTION_DIGITS && pow10(k as nat) % d != 0 {
        lemma_decimal_places(d, k + 1);
    }
}

/// The `k` lowest decimal digits of `m`, leading zeros kept.
pub open spec fn padded_text(m: nat, k: nat) -> Seq<char>
    decreases k,
{
    if k == 0 {
        Seq::empty()
    } else {
        padded_text(m / 10, (k - 1) as nat).push(digit_char((m % 10) as int))
    }
}

/// A fraction as text: `n` where the denominator is one; a decimal with the
/// fewest places that hold it exactly where the denominator is above one and
/// divides ten to at most the most digits after the point; `n/d` otherwise.
pub open spec fn frac_text(f: Frac) -> Seq<char> {
    let d = f.denom as int;
    let a = if f.numer < 0 {
        -f.numer
    } else {
        f.numer as int
    };
    let k = decimal_places(d, 1);
    if d == 1 {
        int_text(f.numer as int)
    } else if d > 1 && k > 0 {
        (if f.numer < 0 {
            seq!['-']
        } else {
            Seq::empty()
        }) + nat_text((a / d) as nat) + seq!['.'] + padded_text(
            ((a % d) * (pow10(k as nat) / d)) as nat,
            k as nat,
        )
    } else {
        int_text(f.numer as int) + seq!['/'] + int_text(d)
    }
}

/// Appends the decimal digits of `n`.
pub fn push_nat(s: &mut String, n: u64)
    ensures
        final(s)@ == old(s)@ + nat_text(n as nat),
    decreases n,
{
    let ghost start = s@;
    if n >= 10 {
        push_nat(s, n / 10);
    }
    let d = (n % 10) as u8;
    s.push((48u8 + d) as char);
    proof {
        if n >= 10 {
            assert(s@ =~= start + nat_text(n as nat));
        } else {
            assert(s@ =~= start + nat_text(n as nat));
        }
    }
}

/// Appends `n` in decimal.
pub fn push_int(s: &mut String, n: i64)
    ensures
        final(s)@ == old(s)@ + int_text(n as int),
{
    let ghost start = s@;
    if n < 0 {
        s.push('-');
        let m: u64 = (-(n as i128)) as u64;
        push_nat(s, m);
        assert(s@ =~= start + int_text(n as int));
    } else {
        push_nat(s, n as u64);
    }
}

/// Appends the `k` lowest decimal digits of `m`, leading zeros kept.
fn push_padded(s: &mut String, m: u64, k: usize)
    ensures
        final(s)@ == old(s)@ + padded_text(m as nat, k as nat),
    decreases k,
{
    let ghost start = s@;
    if k > 0 {
        push_padded(s, m / 10, k - 1);
        let d = (m % 10) as u8;
        s.push((48u8 + d) as char);
    }
    proof {
        assert(s@ =~= start + padded_text(m as nat, k as nat));
    }
}

/// The fewest places after which a fraction over `d` ends, as
/// `decimal_places` gives it.
fn places(d: i64) -> (r: usize)
    requires
        d > 1,
    ensures
        r == decimal_places(d as int, 1),
        r <= MAX_FRACTION_DIGITS,
{
    let mut k: usize = 1;
    while k <= MAX_FRACTION_DIGITS
        invariant
            1 <= k <= MAX_FRACTION_DIGITS + 1,
            d > 1,
            decimal_places(d as int, 1) == decimal_places(d as int, k as int),
        decreases MAX_FRACTION_DIGITS + 1 - k,
    {
        if pow10_at(k) % d == 0 {
            return k;
        }
        k = k + 1;
    }
    0
}

/// Appends a fraction as text.
pub fn push_frac(s: &mut String, f: &Frac)
    ensures
        final(s)@ == old(s)@ + frac_text(*f),
{
    let ghost start = s@;
    if f.denom == 1 {
        push_int(s, f.numer);
        return;
    }
    let k = if f.denom > 1 {
        places(f.denom)
    } else {
        0
    };
    if k > 0 {
        let d = f.denom as u64;
        let a: u64 = if f.numer < 0 {
            (-(f.numer as i128)) as u64
        } else {
            f.numer as u64
        };
        let p = pow10_at(k) as u64;
        let q = p / d;
        let rem = a % d;
        proof {
            lemma_decimal_places(d as int, 1);
            vstd::arithmetic::div_mod::lemma_fundamental_div_mod(p as int, d as int);
            assert(rem * q < p) by (nonlinear_arith)
                requires
                    rem < d,
                    p == d * q,
                    p >= 1,
                    q >= 0,
            ;
        }
        if f.numer < 0 {
            s.push('-');
        }
        push_nat(s, a / d);
        s.push('.');
        push_padded(s, rem * q, k);
        proof {
            assert(s@ =~= start + frac_text(*f));
        }
    } else {
        push_int(s, f.numer);
        s.push('/');
        push_int(s, f.denom);
        proof {
            assert(s@ =~= start + frac_text(*f));
        }
    }
}

impl Frac {
    /// The fraction as text: `n` where the denominator is one, a decimal
    /// where it divides a power of ten, `n/d` otherwise.
    pub fn to_string(&self) -> (r: String)
        ensures
            r@ == frac_text(*self),
    {
        let mut s = String::new();
        push_frac(&mut s, self);
        proof {
            assert(s@ =~= frac_text(*self));
        }
        s
    }
}

/// Ten to the power `n`.
pub fn pow10_at(k: usize) -> (r: i64)
    requires
        k <= MAX_FRACTION_DIGITS,
    ensures
        r == pow10(k as nat),
        r >= 1,
{
    let mut den: i64 = 1;
    let mut n: usize = 0;
    proof {
        reveal_with_fuel(pow10, 20);
    }
    while n < k
        invariant
            k <= MAX_FRACTION_DIGITS,
            n <= k,
            den == pow10(n as nat),
            1 <= den <= 1_000_000_000_000_000_000,
            den * pow10((MAX_FRACTION_DIGITS - n) as nat) == 1_000_000_000_000_000_000,
        decreases k - n,
    {
        proof {
            assert(pow10((MAX_FRACTION_DIGITS - n) as nat) == 10 * pow10(
                (MAX_FRACTION_DIGITS - n - 1) as nat,
            ));
            lemma_pow10_pos((MAX_FRACTION_DIGITS - n - 1) as nat);
            assert(den * 10 <= 1_000_000_000_000_000_000) by (nonlinear_arith)
                requires
                    den * (10 * pow10((MAX_FRACTION_DIGITS - n - 1) as nat))
                        == 1_000_000_000_000_000_000,
                    pow10((MAX_FRACTION_DIGITS - n - 1) as nat) >= 1,
                    den >= 1,
            ;
        }
        proof {
            assert(den * 10 * pow10((MAX_FRACTION_DIGITS - n - 1) as nat) == 1_000_000_000_000_000_000)
                by (nonlinear_arith)
                requires
                    den * (10 * pow10((MAX_FRACTION_DIGITS - n - 1) as nat))
                        == 1_000_000_000_000_000_000,
            ;
        }
        den = den * 10;
        n = n + 1;
    }
    den
}

pub proof fn lemma_pow10_pos(k: nat)
    ensures
        pow10(k) >= 1,
    decreases k,
{
    if k > 0 {
        lemma_pow10_pos((k - 1) as nat);
    }
}

} // verus!

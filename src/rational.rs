use vstd::prelude::*;

use crate::error::{outcome, ErrorKind, EvalError};

verus! {

/// Greatest common divisor, by Euclid's algorithm.
pub open spec fn spec_gcd(a: nat, b: nat) -> nat
    decreases b,
{
    if b == 0 {
        a
    } else {
        spec_gcd(b, a % b)
    }
}

pub open spec fn abs(x: int) -> nat {
    if x < 0 {
        (-x) as nat
    } else {
        x as nat
    }
}

/// A positive second argument bounds the gcd from above and keeps it positive.
pub proof fn lemma_gcd_bounds(a: nat, b: nat)
    requires
        b > 0,
    ensures
        0 < spec_gcd(a, b) <= b,
    decreases b,
{
    reveal_with_fuel(spec_gcd, 2);
    if a % b != 0 {
        lemma_gcd_bounds(b, a % b);
    }
}

/// If `k` divides `a` and `b` (with `b` positive), it divides `a % b`.
proof fn lemma_divides_remainder(a: nat, b: nat, k: nat)
    requires
        b > 0,
        k > 0,
        a % k == 0,
        b % k == 0,
    ensures
        (a % b) % k == 0,
{
    vstd::arithmetic::div_mod::lemma_fundamental_div_mod(a as int, b as int);
    vstd::arithmetic::div_mod::lemma_fundamental_div_mod(a as int, k as int);
    vstd::arithmetic::div_mod::lemma_fundamental_div_mod(b as int, k as int);
    let x = a / k;
    let y = b / k;
    let q = a / b;
    let w: int = x - q * y;
    assert(b * q == k * (q * y)) by (nonlinear_arith)
        requires
            b == k * y,
    ;
    assert(k * w == k * x - k * (q * y)) by (nonlinear_arith)
        requires
            w == x - q * y,
    ;
    assert(a % b == k * w);
    vstd::arithmetic::div_mod::lemma_mod_multiples_basic(w, k as int);
    assert(k * w == w * k) by (nonlinear_arith);
}

/// If `k` divides `b` and `a % b` (with `b` positive), it divides `a`.
proof fn lemma_divides_from_remainder(a: nat, b: nat, k: nat)
    requires
        b > 0,
        k > 0,
        b % k == 0,
        (a % b) % k == 0,
    ensures
        a % k == 0,
{
    vstd::arithmetic::div_mod::lemma_fundamental_div_mod(a as int, b as int);
    vstd::arithmetic::div_mod::lemma_fundamental_div_mod(b as int, k as int);
    vstd::arithmetic::div_mod::lemma_fundamental_div_mod((a % b) as int, k as int);
    let y = b / k;
    let z = (a % b) / k;
    let q = a / b;
    assert(a == k * (q * y + z)) by (nonlinear_arith)
        requires
            a == b * q + a % b,
            b == k * y,
            a % b == k * z,
    ;
    vstd::arithmetic::div_mod::lemma_mod_multiples_basic((q * y + z) as int, k as int);
    assert(k * (q * y + z) == (q * y + z) * k) by (nonlinear_arith);
}

/// `spec_gcd(a, b)` is the greatest common divisor: it divides both numbers,
/// and every common divisor divides it.
pub proof fn lemma_gcd_is_greatest_common_divisor(a: nat, b: nat, k: nat)
    requires
        a > 0 || b > 0,
    ensures
        spec_gcd(a, b) > 0,
        a % spec_gcd(a, b) == 0,
        b % spec_gcd(a, b) == 0,
        k > 0 && a % k == 0 && b % k == 0 ==> spec_gcd(a, b) % k == 0,
    decreases b,
{
    if b == 0 {
        vstd::arithmetic::div_mod::lemma_mod_self_0(a as int);
    } else {
        lemma_gcd_is_greatest_common_divisor(b, a % b, k);
        let g = spec_gcd(a, b);
        lemma_divides_from_remainder(a, b, g);
        if k > 0 && a % k == 0 && b % k == 0 {
            lemma_divides_remainder(a, b, k);
        }
    }
}

/// An exact rational number `num / den`.
#[derive(Clone, Copy, Debug, PartialEq, Eq)]
pub struct Rational {
    pub num: i64,
    pub den: i64,
}

impl Rational {
    /// The denominator is positive and the fraction is in lowest terms, so
    /// that equal numbers have equal fields.
    pub open spec fn wf(self) -> bool {
        &&& self.den >= 1
        &&& spec_gcd(abs(self.num as int), self.den as nat) == 1
    }

    /// The whole number `n`.
    pub fn from_integer(n: i64) -> (r: Rational)
        ensures
            r.num == n,
            r.den == 1,
            r.wf(),
    {
        proof {
            reveal_with_fuel(spec_gcd, 2);
        }
        Rational { num: n, den: 1 }
    }
}

/// `n / d` in lowest terms, sign on the numerator: both parts divided by their gcd.
pub open spec fn fraction_parts(n: int, d: int) -> (int, int) {
    let sn = if d < 0 {
        -n
    } else {
        n
    };
    let g = spec_gcd(abs(sn), abs(d));
    let q = (abs(sn) / g) as int;
    (
        if sn < 0 {
            -q
        } else {
            q
        },
        (abs(d) / g) as int,
    )
}

/// The fraction `n / d` in lowest terms; `Overflow` where a part then leaves
/// the 64-bit range.
pub open spec fn fraction(n: int, d: int) -> Result<Rational, ErrorKind> {
    let (num, den) = fraction_parts(n, d);
    if i64::MIN <= num <= i64::MAX && den <= i64::MAX {
        Ok(Rational { num: num as i64, den: den as i64 })
    } else {
        Err(ErrorKind::Overflow)
    }
}

pub open spec fn rat_add(a: Rational, b: Rational) -> Result<Rational, ErrorKind> {
    fraction(a.num * b.den + b.num * a.den, a.den * b.den)
}

pub open spec fn rat_sub(a: Rational, b: Rational) -> Result<Rational, ErrorKind> {
    fraction(a.num * b.den - b.num * a.den, a.den * b.den)
}

pub open spec fn rat_mul(a: Rational, b: Rational) -> Result<Rational, ErrorKind> {
    fraction(a.num * b.num, a.den * b.den)
}

/// Division; a zero divisor is an error of its own.
pub open spec fn rat_div(a: Rational, b: Rational) -> Result<Rational, ErrorKind> {
    if b.num == 0 {
        Err(ErrorKind::DivisionByZero)
    } else {
        fraction(a.num * b.den, a.den * b.num)
    }
}

pub open spec fn rat_neg(a: Rational) -> Result<Rational, ErrorKind> {
    fraction(-a.num, a.den as int)
}

/// The parts are in lowest terms, with a positive denominator, and stand for `n / d`.
pub proof fn lemma_fraction_parts(n: int, d: int)
    requires
        d != 0,
    ensures
        fraction_parts(n, d).1 >= 1,
        spec_gcd(abs(fraction_parts(n, d).0), fraction_parts(n, d).1 as nat) == 1,
        fraction_parts(n, d).0 * d == n * fraction_parts(n, d).1,
{
    let sn = if d < 0 {
        -n
    } else {
        n
    };
    let an = abs(sn);
    let ad = abs(d);
    lemma_gcd_is_greatest_common_divisor(an, ad, 1);
    let g = spec_gcd(an, ad);
    vstd::arithmetic::div_mod::lemma_fundamental_div_mod(an as int, g as int);
    vstd::arithmetic::div_mod::lemma_fundamental_div_mod(ad as int, g as int);
    let q = an / g;
    let e = ad / g;
    assert(e >= 1) by {
        lemma_gcd_bounds(an, ad);
        vstd::arithmetic::div_mod::lemma_div_non_zero(ad as int, g as int);
    }
    lemma_gcd_is_greatest_common_divisor(q, e, 1);
    let h = spec_gcd(q, e);
    vstd::arithmetic::div_mod::lemma_fundamental_div_mod(q as int, h as int);
    vstd::arithmetic::div_mod::lemma_fundamental_div_mod(e as int, h as int);
    let q1 = q / h;
    let e1 = e / h;
    let gh = g * h;
    assert(an == gh * q1 && ad == gh * e1 && gh > 0) by (nonlinear_arith)
        requires
            an == g * q,
            ad == g * e,
            q == h * q1,
            e == h * e1,
            gh == g * h,
            g > 0,
            h > 0,
    ;
    vstd::arithmetic::div_mod::lemma_mod_multiples_basic(q1 as int, gh as int);
    vstd::arithmetic::div_mod::lemma_mod_multiples_basic(e1 as int, gh as int);
    assert(q1 * gh == gh * q1 && e1 * gh == gh * e1) by (nonlinear_arith);
    lemma_gcd_is_greatest_common_divisor(an, ad, gh);
    vstd::arithmetic::div_mod::lemma_fundamental_div_mod(g as int, gh as int);
    let t = g / gh;
    assert(h == 1) by (nonlinear_arith)
        requires
            g == gh * t,
            gh == g * h,
            g > 0,
            h > 0,
            t >= 0,
    ;
    let qi = q as int;
    let ei = e as int;
    assert(qi * ad == an * ei) by (nonlinear_arith)
        requires
            an == g * q,
            ad == g * e,
            qi == q,
            ei == e,
    ;
    let num = if sn < 0 {
        -qi
    } else {
        qi
    };
    assert(num * d == n * ei) by (nonlinear_arith)
        requires
            qi * ad == an * ei,
            ad == (if d < 0 { -d } else { d }),
            an == (if sn < 0 { -sn } else { sn }),
            sn == (if d < 0 { -n } else { n }),
            num == (if sn < 0 { -qi } else { qi }),
    ;
    assert(abs(num) == q);
}

/// Every fraction that fits has a positive denominator and is in lowest terms.
pub proof fn lemma_fraction_wf(n: int, d: int)
    requires
        d != 0,
    ensures
        fraction(n, d) matches Ok(r) ==> r.wf(),
{
    lemma_fraction_parts(n, d);
}

/// A fraction that fits stands for the quotient it was built from:
/// `num / den == n / d`.
pub proof fn lemma_fraction_value(n: int, d: int)
    requires
        d != 0,
    ensures
        fraction(n, d) matches Ok(r) ==> r.num * d == n * r.den,
{
    lemma_fraction_parts(n, d);
}

/// Scaling both arguments scales the gcd.
proof fn lemma_gcd_scale(a: nat, b: nat, c: nat)
    ensures
        spec_gcd(c * a, c * b) == c * spec_gcd(a, b),
    decreases b,
{
    if b == 0 {
        assert(c * b == 0) by (nonlinear_arith)
            requires
                b == 0,
        ;
    } else if c == 0 {
        assert(c * a == 0 && c * b == 0) by (nonlinear_arith)
            requires
                c == 0,
        ;
        assert(spec_gcd(0, 0) == 0);
        assert(c * spec_gcd(a, b) == 0) by (nonlinear_arith)
            requires
                c == 0,
        ;
    } else {
        vstd::arithmetic::div_mod::lemma_truncate_middle(a as int, c as int, b as int);
        assert(c * b > 0) by (nonlinear_arith)
            requires
                c > 0,
                b > 0,
        ;
        lemma_gcd_scale(b, a % b, c);
    }
}

/// Gauss's lemma: `b` divides `a * d` and shares no factor with `a`, so it divides `d`.
proof fn lemma_coprime_divides(a: nat, b: nat, d: nat)
    requires
        b > 0,
        spec_gcd(a, b) == 1,
        (a * d) % b == 0,
    ensures
        d % b == 0,
{
    if d > 0 {
        lemma_gcd_scale(a, b, d);
        assert(d * a == a * d && d * b == b * d && b * d > 0) by (nonlinear_arith)
            requires
                d > 0,
                b > 0,
        ;
        vstd::arithmetic::div_mod::lemma_mod_multiples_basic(d as int, b as int);
        assert(d * b == b * d) by (nonlinear_arith);
        lemma_gcd_is_greatest_common_divisor(a * d, b * d, b);
        assert(spec_gcd(a * d, b * d) == d);
    }
}

/// `x` divides `y` and `y` divides `x`, both positive: they are equal.
proof fn lemma_mutual_divisors(x: nat, y: nat)
    requires
        x > 0,
        y > 0,
        y % x == 0,
        x % y == 0,
    ensures
        x == y,
{
    vstd::arithmetic::div_mod::lemma_fundamental_div_mod(y as int, x as int);
    vstd::arithmetic::div_mod::lemma_fundamental_div_mod(x as int, y as int);
    let i = y / x;
    let j = x / y;
    assert(x == y) by (nonlinear_arith)
        requires
            y == x * i,
            x == y * j,
            x > 0,
            y > 0,
            i >= 0,
            j >= 0,
    ;
}

/// Two fractions in lowest terms with positive denominators that stand for
/// the same number have the same parts.
pub proof fn lemma_lowest_terms_unique(n1: int, d1: int, n2: int, d2: int)
    requires
        d1 >= 1,
        d2 >= 1,
        spec_gcd(abs(n1), d1 as nat) == 1,
        spec_gcd(abs(n2), d2 as nat) == 1,
        n1 * d2 == n2 * d1,
    ensures
        n1 == n2,
        d1 == d2,
{
    let a1 = abs(n1);
    let a2 = abs(n2);
    let e1 = d1 as nat;
    let e2 = d2 as nat;
    assert(a1 * e2 == a2 * e1) by (nonlinear_arith)
        requires
            n1 * d2 == n2 * d1,
            a1 == (if n1 < 0 { -n1 } else { n1 }),
            a2 == (if n2 < 0 { -n2 } else { n2 }),
            e1 == d1,
            e2 == d2,
            d1 >= 1,
            d2 >= 1,
    ;
    vstd::arithmetic::div_mod::lemma_mod_multiples_basic(a2 as int, e1 as int);
    vstd::arithmetic::div_mod::lemma_mod_multiples_basic(a1 as int, e2 as int);
    assert(a2 * e1 == a1 * e2);
    lemma_coprime_divides(a1, e1, e2);
    lemma_coprime_divides(a2, e2, e1);
    lemma_mutual_divisors(e1, e2);
    assert(n1 == n2) by (nonlinear_arith)
        requires
            n1 * d2 == n2 * d1,
            d1 == d2,
            d1 >= 1,
    ;
}

/// Fractions of equal quotients are equal, overflow included.
pub proof fn lemma_fraction_equal(n1: int, d1: int, n2: int, d2: int)
    requires
        d1 != 0,
        d2 != 0,
        n1 * d2 == n2 * d1,
    ensures
        fraction(n1, d1) == fraction(n2, d2),
{
    lemma_fraction_parts(n1, d1);
    lemma_fraction_parts(n2, d2);
    let (q1, e1) = fraction_parts(n1, d1);
    let (q2, e2) = fraction_parts(n2, d2);
    assert(q1 * e2 * (d1 * d2) == q2 * e1 * (d1 * d2)) by (nonlinear_arith)
        requires
            q1 * d1 == n1 * e1,
            q2 * d2 == n2 * e2,
            n1 * d2 == n2 * d1,
    ;
    assert(d1 * d2 != 0) by (nonlinear_arith)
        requires
            d1 != 0,
            d2 != 0,
    ;
    assert(q1 * e2 == q2 * e1) by (nonlinear_arith)
        requires
            q1 * e2 * (d1 * d2) == q2 * e1 * (d1 * d2),
            d1 * d2 != 0,
    ;
    lemma_lowest_terms_unique(q1, e1, q2, e2);
}

/// A fraction with both parts in the 64-bit range, the numerator not negative, fits.
pub proof fn lemma_fraction_fits(c: int, b: int)
    requires
        0 <= c <= i64::MAX,
        1 <= b <= i64::MAX,
    ensures
        fraction(c, b) is Ok,
{
    lemma_gcd_bounds(c as nat, b as nat);
    let g = spec_gcd(c as nat, b as nat);
    vstd::arithmetic::div_mod::lemma_div_is_ordered_by_denominator(c, 1, g as int);
    vstd::arithmetic::div_mod::lemma_div_is_ordered_by_denominator(b, 1, g as int);
}

/// If `d / 10^k`-like quotient `(p * s + t) / u` fits, so does its tail `t / s`,
/// for `0 <= t < s` where `s` divides `u`: the tail is the fractional part of a
/// multiple of the whole, whose denominator it cannot exceed.
pub proof fn lemma_tail_fits(p: int, t: int, s: int, u: int)
    requires
        p >= 0,
        0 <= t < s,
        s >= 1,
        u % s == 0,
        u >= 1,
        fraction(p * s + t, u) is Ok,
    ensures
        fraction(t, s) is Ok,
{
    let r = fraction(p * s + t, u)->Ok_0;
    lemma_fraction_value(p * s + t, u);
    lemma_fraction_wf(p * s + t, u);
    let a = r.num as int;
    let b = r.den as int;
    vstd::arithmetic::div_mod::lemma_fundamental_div_mod(u, s);
    let v = u / s;
    let c = a * v - p * b;
    assert(c * s == t * b) by (nonlinear_arith)
        requires
            c == a * v - p * b,
            a * u == (p * s + t) * b,
            u == s * v,
    ;
    assert(0 <= c < b) by (nonlinear_arith)
        requires
            c * s == t * b,
            0 <= t < s,
            b >= 1,
    ;
    lemma_fraction_fits(c, b);
    lemma_fraction_equal(t, s, c, b);
}

/// The operations are exact: a result that fits is the true sum, difference,
/// product, quotient or negation (each compared by cross-multiplying).
pub proof fn lemma_operations_exact(a: Rational, b: Rational)
    requires
        a.wf(),
        b.wf(),
    ensures
        rat_add(a, b) matches Ok(r) ==> r.num * (a.den * b.den) == (a.num * b.den + b.num * a.den)
            * r.den,
        rat_sub(a, b) matches Ok(r) ==> r.num * (a.den * b.den) == (a.num * b.den - b.num * a.den)
            * r.den,
        rat_mul(a, b) matches Ok(r) ==> r.num * (a.den * b.den) == (a.num * b.num) * r.den,
        rat_div(a, b) matches Ok(r) ==> r.num * (a.den * b.num) == (a.num * b.den) * r.den,
        rat_neg(a) matches Ok(r) ==> r.num * a.den == -a.num * r.den,
{
    assert(a.den * b.den > 0) by (nonlinear_arith)
        requires
            a.den >= 1,
            b.den >= 1,
    ;
    lemma_fraction_value(a.num * b.den + b.num * a.den, a.den * b.den);
    lemma_fraction_value(a.num * b.den - b.num * a.den, a.den * b.den);
    lemma_fraction_value(a.num * b.num, a.den * b.den);
    if b.num != 0 {
        assert(a.den * b.num != 0) by (nonlinear_arith)
            requires
                a.den >= 1,
                b.num != 0,
        ;
        lemma_fraction_value(a.num * b.den, a.den * b.num);
    }
    lemma_fraction_value(-a.num, a.den as int);
}

/// Euclid's algorithm on wide unsigned integers.
fn gcd_wide(a: u128, b: u128) -> (r: u128)
    ensures
        r == spec_gcd(a as nat, b as nat),
{
    let mut x = a;
    let mut y = b;
    while y != 0
        invariant
            spec_gcd(x as nat, y as nat) == spec_gcd(a as nat, b as nat),
        decreases y,
    {
        let t = y;
        y = x % y;
        x = t;
    }
    x
}

/// Builds `fraction(n, d)` from wide intermediate values.
pub(crate) fn reduce(n: i128, d: i128) -> (r: Result<Rational, EvalError>)
    requires
        d != 0,
        n > i128::MIN,
        d > i128::MIN,
    ensures
        outcome(r) == fraction(n as int, d as int),
        r matches Ok(v) ==> v.wf(),
{
    proof {
        lemma_fraction_wf(n as int, d as int);
    }
    let sn: i128 = if d < 0 {
        -n
    } else {
        n
    };
    let sd: u128 = if d < 0 {
        (-d) as u128
    } else {
        d as u128
    };
    let mag: u128 = if sn < 0 {
        (-sn) as u128
    } else {
        sn as u128
    };
    let g = gcd_wide(mag, sd);
    proof {
        lemma_gcd_bounds(mag as nat, sd as nat);
    }
    let q = mag / g;
    let den = sd / g;
    if den > 9223372036854775807u128 {
        return Err(EvalError::Overflow);
    }
    if sn < 0 {
        if q > 9223372036854775808u128 {
            return Err(EvalError::Overflow);
        }
        let num = (0i128 - q as i128) as i64;
        Ok(Rational { num, den: den as i64 })
    } else {
        if q > 9223372036854775807u128 {
            return Err(EvalError::Overflow);
        }
        Ok(Rational { num: q as i64, den: den as i64 })
    }
}

proof fn lemma_product_bounds(x: int, y: int)
    requires
        i64::MIN <= x <= i64::MAX,
        i64::MIN <= y <= i64::MAX,
    ensures
        -0x4000_0000_0000_0000_0000_0000_0000_0000 <= x * y <= 0x4000_0000_0000_0000_0000_0000_0000_0000,
{
    assert(-0x4000_0000_0000_0000_0000_0000_0000_0000 <= x * y <= 0x4000_0000_0000_0000_0000_0000_0000_0000)
        by (nonlinear_arith)
        requires
            -0x8000_0000_0000_0000 <= x <= 0x8000_0000_0000_0000,
            -0x8000_0000_0000_0000 <= y <= 0x8000_0000_0000_0000,
    ;
}

/// A 64-bit value times a positive 64-bit value stays below half the `i128` range.
proof fn lemma_scaled_bounds(x: int, y: int)
    requires
        i64::MIN <= x <= i64::MAX,
        1 <= y <= i64::MAX,
    ensures
        -0x3fff_ffff_ffff_ffff_8000_0000_0000_0000 <= x * y <= 0x3fff_ffff_ffff_ffff_8000_0000_0000_0000,
{
    assert(-0x3fff_ffff_ffff_ffff_8000_0000_0000_0000 <= x * y <= 0x3fff_ffff_ffff_ffff_8000_0000_0000_0000)
        by (nonlinear_arith)
        requires
            -0x8000_0000_0000_0000 <= x <= 0x8000_0000_0000_0000,
            1 <= y <= 0x7fff_ffff_ffff_ffff,
    ;
}

impl Rational {
    pub fn checked_add(self, b: Rational) -> (r: Result<Rational, EvalError>)
        requires
            self.wf(),
            b.wf(),
        ensures
            outcome(r) == rat_add(self, b),
            r matches Ok(v) ==> v.wf(),
    {
        proof {
            lemma_scaled_bounds(self.num as int, b.den as int);
            lemma_scaled_bounds(b.num as int, self.den as int);
            lemma_product_bounds(self.den as int, b.den as int);
            assert(self.den * b.den > 0) by (nonlinear_arith)
                requires
                    self.den >= 1,
                    b.den >= 1,
            ;
        }
        let n = (self.num as i128) * (b.den as i128) + (b.num as i128) * (self.den as i128);
        let d = (self.den as i128) * (b.den as i128);
        reduce(n, d)
    }

    pub fn checked_sub(self, b: Rational) -> (r: Result<Rational, EvalError>)
        requires
            self.wf(),
            b.wf(),
        ensures
            outcome(r) == rat_sub(self, b),
            r matches Ok(v) ==> v.wf(),
    {
        proof {
            lemma_scaled_bounds(self.num as int, b.den as int);
            lemma_scaled_bounds(b.num as int, self.den as int);
            lemma_product_bounds(self.den as int, b.den as int);
            assert(self.den * b.den > 0) by (nonlinear_arith)
                requires
                    self.den >= 1,
                    b.den >= 1,
            ;
        }
        let n = (self.num as i128) * (b.den as i128) - (b.num as i128) * (self.den as i128);
        let d = (self.den as i128) * (b.den as i128);
        reduce(n, d)
    }

    pub fn checked_mul(self, b: Rational) -> (r: Result<Rational, EvalError>)
        requires
            self.wf(),
            b.wf(),
        ensures
            outcome(r) == rat_mul(self, b),
            r matches Ok(v) ==> v.wf(),
    {
        proof {
            lemma_product_bounds(self.num as int, b.num as int);
            lemma_product_bounds(self.den as int, b.den as int);
            assert(self.den * b.den > 0) by (nonlinear_arith)
                requires
                    self.den >= 1,
                    b.den >= 1,
            ;
        }
        let n = (self.num as i128) * (b.num as i128);
        let d = (self.den as i128) * (b.den as i128);
        reduce(n, d)
    }

    pub fn checked_div(self, b: Rational) -> (r: Result<Rational, EvalError>)
        requires
            self.wf(),
            b.wf(),
        ensures
            outcome(r) == rat_div(self, b),
            r matches Ok(v) ==> v.wf(),
    {
        if b.num == 0 {
            return Err(EvalError::DivisionByZero);
        }
        proof {
            lemma_product_bounds(self.num as int, b.den as int);
            lemma_product_bounds(self.den as int, b.num as int);
            assert(self.den * b.num != 0) by (nonlinear_arith)
                requires
                    self.den >= 1,
                    b.num != 0,
            ;
        }
        let n = (self.num as i128) * (b.den as i128);
        let d = (self.den as i128) * (b.num as i128);
        reduce(n, d)
    }

    pub fn checked_neg(self) -> (r: Result<Rational, EvalError>)
        requires
            self.wf(),
        ensures
            outcome(r) == rat_neg(self),
            r matches Ok(v) ==> v.wf(),
    {
        reduce(-(self.num as i128), self.den as i128)
    }
}

} // verus!

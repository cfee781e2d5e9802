use vstd::prelude::*;

use crate::error::{outcome, ErrorKind, EvalError};
use crate::rational::{
    fraction, lemma_fraction_equal, lemma_fraction_value, lemma_tail_fits, rat_add, rat_div,
    rat_mul, rat_neg, rat_sub, reduce, Rational,
};

verus! {

// ---------------------------------------------------------------------------
// The grammar, as spec functions over a character sequence and a position.
//
//   Additive       := Multiplicative (('+' | '-') Multiplicative)*
//   Multiplicative := Atomic (('*' | '/') Atomic)*
//   Atomic         := '(' Additive ')' | '-' Atomic | Number
//
// Each level returns the value it folded and the position just past what it read.
// ---------------------------------------------------------------------------

/// What one parsing level yields: a value and the position after it, or an error.
pub type Parsed = Result<(Rational, int), ErrorKind>;

/// The text with every space character removed.
pub open spec fn strip_spaces(s: Seq<char>) -> Seq<char> {
    s.filter(|c: char| c != ' ')
}

pub open spec fn is_digit(c: char) -> bool {
    '0' <= c && c <= '9'
}

/// A character that a numeric literal may hold.
pub open spec fn is_number_char(c: char) -> bool {
    is_digit(c) || c == '.'
}

/// The end of the run of digits and points that starts at `pos`.
pub open spec fn number_end(s: Seq<char>, pos: int) -> int
    decreases s.len() - pos,
{
    if 0 <= pos < s.len() && is_number_char(s[pos]) {
        number_end(s, pos + 1)
    } else {
        pos
    }
}

pub open spec fn dot_count(t: Seq<char>) -> nat
    decreases t.len(),
{
    if t.len() == 0 {
        0
    } else {
        dot_count(t.drop_last()) + if t.last() == '.' {
            1nat
        } else {
            0nat
        }
    }
}

pub open spec fn digit_count(t: Seq<char>) -> nat
    decreases t.len(),
{
    if t.len() == 0 {
        0
    } else {
        digit_count(t.drop_last()) + if t.last() == '.' {
            0nat
        } else {
            1nat
        }
    }
}

/// The digits of the text read as one whole number, the point skipped.
pub open spec fn digits_value(t: Seq<char>) -> nat
    decreases t.len(),
{
    if t.len() == 0 {
        0
    } else if t.last() == '.' {
        digits_value(t.drop_last())
    } else {
        digits_value(t.drop_last()) * 10 + (t.last() as nat - '0' as nat) as nat
    }
}

/// How many digits follow the point.
pub open spec fn fraction_digits(t: Seq<char>) -> nat
    decreases t.len(),
{
    if t.len() == 0 {
        0
    } else if t.last() != '.' && dot_count(t.drop_last()) > 0 {
        fraction_digits(t.drop_last()) + 1
    } else {
        fraction_digits(t.drop_last())
    }
}

pub open spec fn pow10(k: nat) -> nat
    decreases k,
{
    if k == 0 {
        1
    } else {
        10 * pow10((k - 1) as nat)
    }
}

/// The value of a run of digits and points: a decimal number needs at least one
/// digit and at most one point. Its value is its digits, read without the
/// point, over ten to the number of digits after the point, in lowest terms;
/// `Overflow` only where that fraction leaves the 64-bit range.
pub open spec fn literal_value(t: Seq<char>) -> Result<Rational, ErrorKind> {
    if dot_count(t) > 1 || digit_count(t) == 0 {
        Err(ErrorKind::InvalidNumber(t))
    } else {
        fraction(digits_value(t) as int, pow10(fraction_digits(t)) as int)
    }
}

/// The numeric literal that starts at `pos`.
pub open spec fn spec_number(s: Seq<char>, pos: int) -> Parsed {
    let end = number_end(s, pos);
    match literal_value(s.subrange(pos, end)) {
        Ok(v) => Ok((v, end)),
        Err(e) => Err(e),
    }
}

/// The value of the binary operator `op` on `a` and `b`.
pub open spec fn apply_op(op: char, a: Rational, b: Rational) -> Result<Rational, ErrorKind> {
    if op == '+' {
        rat_add(a, b)
    } else if op == '-' {
        rat_sub(a, b)
    } else if op == '*' {
        rat_mul(a, b)
    } else {
        rat_div(a, b)
    }
}

/// `Atomic := '(' Additive ')' | '-' Atomic | Number`
pub open spec fn spec_atomic(s: Seq<char>, pos: int) -> Parsed
    decreases s.len() - pos, 0nat,
{
    if pos < 0 || pos >= s.len() {
        Err(ErrorKind::UnexpectedEnd)
    } else if s[pos] == '(' {
        match spec_additive(s, pos + 1) {
            Err(e) => Err(e),
            Ok((v, p)) => if 0 <= p < s.len() && s[p] == ')' {
                Ok((v, p + 1))
            } else {
                Err(ErrorKind::UnclosedParenthesis)
            },
        }
    } else if s[pos] == '-' {
        match spec_atomic(s, pos + 1) {
            Err(e) => Err(e),
            Ok((v, p)) => match rat_neg(v) {
                Err(e) => Err(e),
                Ok(n) => Ok((n, p)),
            },
        }
    } else if is_number_char(s[pos]) {
        spec_number(s, pos)
    } else {
        Err(ErrorKind::UnexpectedCharacter(s[pos]))
    }
}

/// `Multiplicative := Atomic (('*' | '/') Atomic)*`
pub open spec fn spec_multiplicative(s: Seq<char>, pos: int) -> Parsed
    decreases s.len() - pos, 1nat,
{
    match spec_atomic(s, pos) {
        Err(e) => Err(e),
        Ok((v, p)) => if pos < p <= s.len() {
            spec_multiplicative_rest(s, p, v)
        } else {
            Ok((v, p))
        },
    }
}

/// The `*` / `/` operands that follow, folded left to right onto `acc`.
pub open spec fn spec_multiplicative_rest(s: Seq<char>, pos: int, acc: Rational) -> Parsed
    decreases s.len() - pos, 1nat,
{
    if 0 <= pos < s.len() && (s[pos] == '*' || s[pos] == '/') {
        match spec_atomic(s, pos + 1) {
            Err(e) => Err(e),
            Ok((r, p)) => match apply_op(s[pos], acc, r) {
                Err(e) => Err(e),
                Ok(v) => if pos < p <= s.len() {
                    spec_multiplicative_rest(s, p, v)
                } else {
                    Ok((v, p))
                },
            },
        }
    } else {
        Ok((acc, pos))
    }
}

/// `Additive := Multiplicative (('+' | '-') Multiplicative)*`
pub open spec fn spec_additive(s: Seq<char>, pos: int) -> Parsed
    decreases s.len() - pos, 2nat,
{
    match spec_multiplicative(s, pos) {
        Err(e) => Err(e),
        Ok((v, p)) => if pos < p <= s.len() {
            spec_additive_rest(s, p, v)
        } else {
            Ok((v, p))
        },
    }
}

/// The `+` / `-` operands that follow, folded left to right onto `acc`.
pub open spec fn spec_additive_rest(s: Seq<char>, pos: int, acc: Rational) -> Parsed
    decreases s.len() - pos, 2nat,
{
    if 0 <= pos < s.len() && (s[pos] == '+' || s[pos] == '-') {
        match spec_multiplicative(s, pos + 1) {
            Err(e) => Err(e),
            Ok((r, p)) => match apply_op(s[pos], acc, r) {
                Err(e) => Err(e),
                Ok(v) => if pos < p <= s.len() {
                    spec_additive_rest(s, p, v)
                } else {
                    Ok((v, p))
                },
            },
        }
    } else {
        Ok((acc, pos))
    }
}

/// The value of a whole line: spaces removed, one additive expression that
/// must reach the end of the text.
pub open spec fn spec_evaluate(input: Seq<char>) -> Result<Rational, ErrorKind> {
    let s = strip_spaces(input);
    match spec_additive(s, 0) {
        Err(e) => Err(e),
        Ok((v, p)) => if p < s.len() {
            Err(ErrorKind::TrailingInput(s[p]))
        } else {
            Ok(v)
        },
    }
}

/// The exec outcome of a parsing level, as its spec counterpart.
pub open spec fn parsed_as(r: Result<Rational, EvalError>, pos: usize) -> Parsed {
    match r {
        Ok(v) => Ok((v, pos as int)),
        Err(e) => Err(e@),
    }
}

proof fn lemma_pow10_monotonic(a: nat, b: nat)
    requires
        a <= b,
    ensures
        pow10(a) <= pow10(b),
    decreases b,
{
    if a < b {
        lemma_pow10_monotonic(a, (b - 1) as nat);
    }
}

proof fn lemma_pow10_add(a: nat, b: nat)
    ensures
        pow10(a + b) == pow10(a) * pow10(b),
    decreases b,
{
    if b == 0 {
        assert(pow10(0) == 1);
        assert(pow10(a) * 1 == pow10(a)) by (nonlinear_arith);
    } else {
        let b1 = (b - 1) as nat;
        lemma_pow10_add(a, b1);
        assert((a + b - 1) as nat == a + b1);
        assert(pow10(a + b) == 10 * pow10(a + b1));
        assert(pow10(b) == 10 * pow10(b1));
        assert(10 * (pow10(a) * pow10(b1)) == pow10(a) * (10 * pow10(b1))) by (nonlinear_arith);
    }
}

/// The digits of `a + b` read as one number: those of `a` shifted past those of `b`.
proof fn lemma_digits_concat(a: Seq<char>, b: Seq<char>)
    ensures
        digits_value(a + b) == digits_value(a) * pow10(digit_count(b)) + digits_value(b),
        digit_count(a + b) == digit_count(a) + digit_count(b),
        dot_count(a + b) == dot_count(a) + dot_count(b),
    decreases b.len(),
{
    if b.len() == 0 {
        assert(a + b =~= a);
        assert(pow10(0) == 1);
        assert(digits_value(a) * 1 == digits_value(a)) by (nonlinear_arith);
    } else {
        let b1 = b.drop_last();
        let ab = a + b;
        assert(ab.drop_last() =~= a + b1);
        assert(ab.last() == b.last());
        assert(ab.len() > 0);
        lemma_digits_concat(a, b1);
        let x = digits_value(a);
        let y = digits_value(b1);
        let p = pow10(digit_count(b1));
        if b.last() != '.' {
            let d = (b.last() as nat - '0' as nat) as nat;
            assert(digits_value(ab) == digits_value(a + b1) * 10 + d);
            assert(digits_value(b) == y * 10 + d);
            assert(digit_count(b) == digit_count(b1) + 1);
            assert(pow10(digit_count(b)) == 10 * p);
            assert((x * p + y) * 10 == x * (10 * p) + y * 10) by (nonlinear_arith);
        } else {
            assert(digits_value(ab) == digits_value(a + b1));
            assert(digits_value(b) == y);
            assert(digit_count(b) == digit_count(b1));
        }
    }
}

/// A text without points holds only digits as far as the counts go.
proof fn lemma_no_points(u: Seq<char>)
    requires
        forall|i: int| 0 <= i < u.len() ==> #[trigger] u[i] != '.',
    ensures
        digit_count(u) == u.len(),
        dot_count(u) == 0,
    decreases u.len(),
{
    if u.len() > 0 {
        assert forall|i: int| 0 <= i < u.drop_last().len() implies #[trigger] u.drop_last()[i]
            != '.' by {
            assert(u.drop_last()[i] == u[i]);
        }
        lemma_no_points(u.drop_last());
    }
}

/// A run of `n` digits is below `10` to the `n`.
proof fn lemma_digits_bound(u: Seq<char>)
    requires
        forall|i: int| 0 <= i < u.len() ==> is_digit(#[trigger] u[i]),
    ensures
        digits_value(u) < pow10(u.len()),
    decreases u.len(),
{
    if u.len() > 0 {
        let u1 = u.drop_last();
        assert forall|i: int| 0 <= i < u1.len() implies is_digit(#[trigger] u1[i]) by {
            assert(u1[i] == u[i]);
        }
        lemma_digits_bound(u1);
        assert(is_digit(u[u.len() - 1]));
        assert(u.last() == u[u.len() - 1]);
        assert(pow10(u.len()) == 10 * pow10(u1.len()));
    }
}

/// The value of one digit character.
proof fn lemma_one_digit(c: char)
    requires
        is_digit(c),
    ensures
        digits_value(seq![c]) == c as nat - '0' as nat,
        digit_count(seq![c]) == 1,
{
    let one = seq![c];
    assert(one.drop_last() =~= Seq::<char>::empty());
    assert(one.last() == c);
    assert(c != '.');
    assert(digits_value(one) == digits_value(one.drop_last()) * 10 + (c as nat - '0' as nat) as nat);
    assert(digit_count(one) == digit_count(one.drop_last()) + 1);
}

/// Relies on `String`'s `FromIterator<char>`: the string holds the characters in order.
#[verifier::external_body]
fn string_of(chars: &Vec<char>) -> (r: String)
    ensures
        r@ == chars@,
{
    chars.iter().collect()
}

/// Reads the digits `t[lo..]` as the fraction `0.ddd`, last digit first: each
/// step divides by ten what has been read and adds the next digit, so every
/// value on the way is a tail of the result and has no larger denominator.
fn fraction_part(t: &Vec<char>, lo: usize) -> (r: Result<Rational, EvalError>)
    requires
        lo <= t@.len(),
        forall|i: int| lo <= i < t@.len() ==> is_digit(#[trigger] t@[i]),
    ensures
        outcome(r) == fraction(
            digits_value(t@.subrange(lo as int, t@.len() as int)) as int,
            pow10((t@.len() - lo) as nat) as int,
        ),
        r matches Ok(v) ==> v.wf(),
{
    let ghost s = t@;
    let len = t.len();
    let ghost tail = s.subrange(lo as int, len as int);
    let mut w = Rational::from_integer(0);
    proof {
        assert(s.subrange(len as int, len as int) =~= Seq::<char>::empty());
        assert(pow10(0) == 1);
        assert(crate::rational::spec_gcd(0, 1) == crate::rational::spec_gcd(1, 0));
        assert(crate::rational::spec_gcd(1, 0) == 1);
        assert(crate::rational::fraction_parts(0, 1) == (0int, 1int));
        assert(fraction(0, 1) == Ok::<Rational, ErrorKind>(w));
    }
    let mut j: usize = len;
    while j > lo
        invariant
            lo <= j <= len,
            len == s.len(),
            s == t@,
            tail == s.subrange(lo as int, len as int),
            forall|i: int| lo <= i < s.len() ==> is_digit(#[trigger] s[i]),
            fraction(digits_value(s.subrange(j as int, len as int)) as int, pow10(
                (len - j) as nat,
            ) as int) == Ok::<Rational, ErrorKind>(w),
            w.wf(),
        decreases j,
    {
        let c = t[j - 1];
        let ghost u = s.subrange(j as int, len as int);
        let ghost u1 = s.subrange(j - 1, len as int);
        let ghost m = (len - j) as nat;
        proof {
            assert(is_digit(c));
            assert forall|i: int| 0 <= i < u.len() implies #[trigger] u[i] != '.' by {
                assert(u[i] == s[j + i]);
                assert(is_digit(s[j + i]));
            }
            lemma_no_points(u);
            assert(u1 =~= seq![c] + u);
            lemma_one_digit(c);
            lemma_digits_concat(seq![c], u);
        }
        let f = (c as u32 - '0' as u32) as i128;
        let ghost big_t = digits_value(u) as int;
        let ghost pw = pow10(m) as int;
        proof {
            lemma_pow10_monotonic(0, m);
            lemma_fraction_value(big_t, pw);
            assert(digits_value(u1) == f * pw + big_t);
            assert(pow10(m + 1) == 10 * pw);
            assert((f * w.den + w.num) * (10 * pw) == (f * pw + big_t) * (10 * w.den))
                by (nonlinear_arith)
                requires
                    w.num * pw == big_t * w.den,
            ;
            lemma_fraction_equal(f * w.den + w.num, 10 * w.den, f * pw + big_t, 10 * pw);
            assert(0 <= f <= 9);
            assert(0 <= f * w.den <= 9 * 0x7fff_ffff_ffff_ffff) by (nonlinear_arith)
                requires
                    0 <= f <= 9,
                    1 <= w.den <= 0x7fff_ffff_ffff_ffff,
            ;
        }
        let step = reduce(f * (w.den as i128) + (w.num as i128), 10 * (w.den as i128));
        match step {
            Ok(v) => {
                w = v;
            },
            Err(e) => {
                proof {
                    // a tail that does not fit means the whole run does not
                    let head = s.subrange(lo as int, j - 1);
                    let k = (len - lo) as nat;
                    assert(tail =~= head + u1);
                    assert forall|i: int| 0 <= i < u1.len() implies #[trigger] u1[i] != '.' by {
                        assert(u1[i] == s[j - 1 + i]);
                        assert(is_digit(s[j - 1 + i]));
                    }
                    assert forall|i: int| 0 <= i < u1.len() implies is_digit(#[trigger] u1[i]) by {
                        assert(u1[i] == s[j - 1 + i]);
                    }
                    lemma_no_points(u1);
                    lemma_digits_concat(head, u1);
                    lemma_digits_bound(u1);
                    lemma_pow10_add((k - (m + 1)) as nat, m + 1);
                    let su = pow10(m + 1) as int;
                    let uu = pow10(k) as int;
                    let q = pow10((k - (m + 1)) as nat) as int;
                    assert(uu == q * su);
                    vstd::arithmetic::div_mod::lemma_mod_multiples_basic(q, su);
                    lemma_pow10_monotonic(0, k);
                    if fraction(digits_value(tail) as int, uu) is Ok {
                        lemma_tail_fits(digits_value(head) as int, digits_value(u1) as int, su, uu);
                    }
                }
                return Err(e);
            },
        }
        j = j - 1;
    }
    Ok(w)
}

/// Reads the digits `t[..p]` as a whole number, if it fits in 63 bits.
fn whole_part(t: &Vec<char>, p: usize) -> (r: Option<u64>)
    requires
        p <= t@.len(),
        forall|i: int| 0 <= i < p ==> is_digit(#[trigger] t@[i]),
    ensures
        r matches Some(v) ==> v == digits_value(t@.take(p as int)) && v <= i64::MAX,
        r is None ==> digits_value(t@.take(p as int)) > i64::MAX,
{
    let ghost s = t@;
    let mut value: u64 = 0;
    let mut too_big = false;
    let mut i: usize = 0;
    while i < p
        invariant
            i <= p <= s.len(),
            s == t@,
            forall|x: int| 0 <= x < p ==> is_digit(#[trigger] s[x]),
            too_big == (digits_value(s.take(i as int)) > i64::MAX),
            !too_big ==> value == digits_value(s.take(i as int)),
            value <= i64::MAX,
        decreases p - i,
    {
        let c = t[i];
        proof {
            assert(is_digit(c));
            assert(s.take(i + 1).drop_last() =~= s.take(i as int));
            assert(s.take(i + 1).last() == c);
        }
        if !too_big {
            let next = value as u128 * 10 + (c as u32 - '0' as u32) as u128;
            if next > 9223372036854775807u128 {
                too_big = true;
            } else {
                value = next as u64;
            }
        }
        i = i + 1;
    }
    if too_big {
        None
    } else {
        Some(value)
    }
}

/// Reads the decimal literal `t`, a run of digits and points: the whole part
/// plus the fractional part, reduced.
fn literal(t: &Vec<char>) -> (r: Result<Rational, EvalError>)
    requires
        forall|k: int| 0 <= k < t@.len() ==> is_number_char(#[trigger] t@[k]),
    ensures
        outcome(r) == literal_value(t@),
        r matches Ok(v) ==> v.wf(),
{
    let ghost s = t@;
    let mut dots: usize = 0;
    let mut digits: usize = 0;
    let mut frac: usize = 0;
    let mut point: usize = 0;
    let mut j: usize = 0;
    while j < t.len()
        invariant
            j <= s.len(),
            s == t@,
            forall|k: int| 0 <= k < s.len() ==> is_number_char(#[trigger] s[k]),
            dots + digits == j,
            frac <= digits,
            dots == dot_count(s.take(j as int)),
            digits == digit_count(s.take(j as int)),
            frac == fraction_digits(s.take(j as int)),
            dots == 0 ==> frac == 0,
            dots == 0 ==> forall|i: int| 0 <= i < j ==> #[trigger] s[i] != '.',
            dots >= 1 ==> point < j && s[point as int] == '.',
            dots >= 1 ==> forall|i: int| 0 <= i < point ==> #[trigger] s[i] != '.',
            dots == 1 ==> forall|i: int| point < i < j ==> #[trigger] s[i] != '.',
            dots == 1 ==> frac == j - point - 1,
        decreases s.len() - j,
    {
        let c = t[j];
        proof {
            assert(s.take(j + 1).drop_last() =~= s.take(j as int));
            assert(s.take(j + 1).last() == c);
        }
        if c == '.' {
            if dots == 0 {
                point = j;
            }
            dots = dots + 1;
        } else {
            if dots > 0 {
                frac = frac + 1;
            }
            digits = digits + 1;
        }
        j = j + 1;
    }
    proof {
        assert(s.take(s.len() as int) =~= s);
    }
    if dots > 1 || digits == 0 {
        return Err(EvalError::InvalidNumber(string_of(t)));
    }
    let len = t.len();
    let p: usize = if dots == 1 {
        point
    } else {
        len
    };
    let lo: usize = if dots == 1 {
        point + 1
    } else {
        len
    };
    let ghost k = frac as nat;
    let ghost whole = s.take(p as int);
    let ghost tail = s.subrange(lo as int, len as int);
    let ghost dd = digits_value(s) as int;
    proof {
        assert forall|i: int| 0 <= i < p implies is_digit(#[trigger] s[i]) by {
            assert(s[i] != '.');
            assert(is_number_char(s[i]));
        }
        assert forall|i: int| lo <= i < len implies is_digit(#[trigger] s[i]) by {
            assert(s[i] != '.');
            assert(is_number_char(s[i]));
        }
        lemma_literal_split(s, p, lo, k, dots == 1);
        lemma_pow10_monotonic(0, k);
    }
    let fractional = match fraction_part(t, lo) {
        Ok(v) => v,
        Err(e) => {
            proof {
                lemma_overflow_from_tail(
                    dd,
                    digits_value(whole) as int,
                    digits_value(tail) as int,
                    pow10(k) as int,
                );
            }
            return Err(e);
        },
    };
    let value = match whole_part(t, p) {
        Some(v) => v,
        None => {
            proof {
                lemma_overflow_from_whole(
                    dd,
                    digits_value(whole) as int,
                    digits_value(tail) as int,
                    pow10(k) as int,
                );
            }
            return Err(EvalError::Overflow);
        },
    };
    let ghost uu = pow10(k) as int;
    let ghost big_t = digits_value(tail) as int;
    proof {
        lemma_pow10_monotonic(0, k);
        lemma_fraction_value(big_t, uu);
        let w = fractional;
        assert((value * w.den + w.num) * uu == dd * w.den) by (nonlinear_arith)
            requires
                w.num * uu == big_t * w.den,
                dd == value * uu + big_t,
        ;
        lemma_fraction_equal(value * w.den + w.num, w.den as int, dd, uu);
        assert(0 <= value * w.den <= 0x4000_0000_0000_0000_0000_0000_0000_0000) by (nonlinear_arith)
            requires
                0 <= value <= 0x7fff_ffff_ffff_ffff,
                1 <= w.den <= 0x7fff_ffff_ffff_ffff,
        ;
    }
    reduce(
        (value as i128) * (fractional.den as i128) + (fractional.num as i128),
        fractional.den as i128,
    )
}

/// A valid literal is its whole digits, perhaps a point, then its fraction
/// digits: its digits read without the point are the whole part shifted past
/// the fraction digits.
proof fn lemma_literal_split(s: Seq<char>, p: usize, lo: usize, k: nat, has_point: bool)
    requires
        p <= lo <= s.len(),
        has_point ==> lo == p + 1 && s[p as int] == '.',
        !has_point ==> p == s.len() && lo == s.len(),
        k == s.len() - lo,
        forall|i: int| 0 <= i < p ==> is_digit(#[trigger] s[i]),
        forall|i: int| lo <= i < s.len() ==> is_digit(#[trigger] s[i]),
    ensures
        digits_value(s) == digits_value(s.take(p as int)) * pow10(k) + digits_value(
            s.subrange(lo as int, s.len() as int),
        ),
        digits_value(s.subrange(lo as int, s.len() as int)) < pow10(k),
{
    let whole = s.take(p as int);
    let tail = s.subrange(lo as int, s.len() as int);
    assert forall|i: int| 0 <= i < tail.len() implies is_digit(#[trigger] tail[i]) by {
        assert(tail[i] == s[lo + i]);
    }
    assert forall|i: int| 0 <= i < tail.len() implies #[trigger] tail[i] != '.' by {
        assert(is_digit(tail[i]));
    }
    lemma_no_points(tail);
    lemma_digits_bound(tail);
    if has_point {
        let pt = seq!['.'];
        assert(s =~= whole + (pt + tail));
        assert(pt.drop_last() =~= Seq::<char>::empty());
        assert(pt.last() == '.');
        assert(pt.len() == 1);
        assert(digits_value(Seq::<char>::empty()) == 0);
        assert(digit_count(Seq::<char>::empty()) == 0);
        assert(digits_value(pt) == digits_value(pt.drop_last()));
        assert(digit_count(pt) == digit_count(pt.drop_last()));
        assert(digits_value(pt) == 0);
        assert(digit_count(pt) == 0);
        lemma_digits_concat(pt, tail);
        assert(0 * pow10(digit_count(tail)) == 0) by (nonlinear_arith);
        lemma_digits_concat(whole, pt + tail);
    } else {
        assert(whole =~= s);
        assert(tail =~= Seq::<char>::empty());
        assert(pow10(0) == 1);
        assert(digits_value(s) * 1 == digits_value(s)) by (nonlinear_arith);
    }
}

/// Where the digits after the point do not fit on their own, neither does the literal.
proof fn lemma_overflow_from_tail(dd: int, whole: int, tail: int, uu: int)
    requires
        dd == whole * uu + tail,
        whole >= 0,
        0 <= tail < uu,
        fraction(tail, uu) is Err,
    ensures
        fraction(dd, uu) == Err::<Rational, ErrorKind>(ErrorKind::Overflow),
{
    vstd::arithmetic::div_mod::lemma_mod_self_0(uu);
    if fraction(dd, uu) is Ok {
        lemma_tail_fits(whole, tail, uu, uu);
    }
}

/// Where the whole part leaves the 64-bit range, so does the literal.
proof fn lemma_overflow_from_whole(dd: int, whole: int, tail: int, uu: int)
    requires
        dd == whole * uu + tail,
        whole > i64::MAX,
        tail >= 0,
        uu >= 1,
    ensures
        fraction(dd, uu) == Err::<Rational, ErrorKind>(ErrorKind::Overflow),
{
    if fraction(dd, uu) is Ok {
        let r = fraction(dd, uu)->Ok_0;
        lemma_fraction_value(dd, uu);
        crate::rational::lemma_fraction_wf(dd, uu);
        assert(r.num >= whole) by (nonlinear_arith)
            requires
                r.num * uu == dd * r.den,
                dd == whole * uu + tail,
                tail >= 0,
                uu >= 1,
                r.den >= 1,
                whole >= 0,
        ;
    }
}

/// Reads the numeric literal at `*position`: the longest run of digits and
/// points, which must then form one decimal number.
pub fn parse_number(chars: &Vec<char>, position: &mut usize) -> (r: Result<Rational, EvalError>)
    requires
        *old(position) <= chars@.len(),
    ensures
        parsed_as(r, *final(position)) == spec_number(chars@, *old(position) as int),
        *final(position) == number_end(chars@, *old(position) as int),
        *old(position) <= *final(position) <= chars@.len(),
        r matches Ok(v) ==> v.wf() && *old(position) < *final(position),
{
    let start = *position;
    let mut i = start;
    let mut run: Vec<char> = Vec::new();
    while i < chars.len() && (('0' <= chars[i] && chars[i] <= '9') || chars[i] == '.')
        invariant
            start <= i <= chars@.len(),
            number_end(chars@, start as int) == number_end(chars@, i as int),
            run@ == chars@.subrange(start as int, i as int),
        decreases chars@.len() - i,
    {
        run.push(chars[i]);
        i = i + 1;
    }
    *position = i;
    proof {
        assert(number_end(chars@, i as int) == i);
        assert forall|k: int| 0 <= k < run@.len() implies is_number_char(#[trigger] run@[k]) by {
            lemma_number_run(chars@, start as int, start + k);
        }
    }
    literal(&run)
}

/// Every character from `pos` up to the end of its number run is a number character.
proof fn lemma_number_run(s: Seq<char>, pos: int, k: int)
    requires
        0 <= pos <= k < number_end(s, pos),
    ensures
        is_number_char(s[k]),
    decreases s.len() - pos,
{
    if pos < k {
        lemma_number_run(s, pos + 1, k);
    }
}

/// `Atomic := '(' Additive ')' | '-' Atomic | Number`: reads one operand at
/// `*position` and moves past it.
pub fn parse_parentheses_and_numbers(chars: &Vec<char>, position: &mut usize) -> (r: Result<
    Rational,
    EvalError,
>)
    requires
        *old(position) <= chars@.len(),
    ensures
        parsed_as(r, *final(position)) == spec_atomic(chars@, *old(position) as int),
        r matches Ok(v) ==> v.wf() && *old(position) < *final(position) <= chars@.len(),
    decreases chars@.len() - *old(position), 0nat,
{
    if *position >= chars.len() {
        return Err(EvalError::UnexpectedEnd);
    }
    let current = chars[*position];
    if current == '(' {
        *position = *position + 1;
        let inner = match parse_addition_subtraction(chars, position) {
            Err(e) => return Err(e),
            Ok(v) => v,
        };
        if *position >= chars.len() || chars[*position] != ')' {
            return Err(EvalError::UnclosedParenthesis);
        }
        *position = *position + 1;
        Ok(inner)
    } else if current == '-' {
        *position = *position + 1;
        match parse_parentheses_and_numbers(chars, position) {
            Err(e) => Err(e),
            Ok(v) => v.checked_neg(),
        }
    } else if ('0' <= current && current <= '9') || current == '.' {
        parse_number(chars, position)
    } else {
        Err(EvalError::UnexpectedCharacter(current))
    }
}

/// `Multiplicative := Atomic (('*' | '/') Atomic)*`, folded left to right;
/// a zero divisor stops the evaluation.
pub fn parse_multiplication_division(chars: &Vec<char>, position: &mut usize) -> (r: Result<
    Rational,
    EvalError,
>)
    requires
        *old(position) <= chars@.len(),
    ensures
        parsed_as(r, *final(position)) == spec_multiplicative(chars@, *old(position) as int),
        r matches Ok(v) ==> v.wf() && *old(position) < *final(position) <= chars@.len(),
    decreases chars@.len() - *old(position), 1nat,
{
    let ghost start = *position as int;
    let mut result = match parse_parentheses_and_numbers(chars, position) {
        Err(e) => return Err(e),
        Ok(v) => v,
    };
    while *position < chars.len() && (chars[*position] == '*' || chars[*position] == '/')
        invariant
            start == *old(position) as int,
            start < *position <= chars@.len(),
            result.wf(),
            spec_multiplicative(chars@, start) == spec_multiplicative_rest(
                chars@,
                *position as int,
                result,
            ),
        decreases chars@.len() - *position,
    {
        let op = chars[*position];
        *position = *position + 1;
        let right = match parse_parentheses_and_numbers(chars, position) {
            Err(e) => return Err(e),
            Ok(v) => v,
        };
        let next = if op == '*' {
            result.checked_mul(right)
        } else {
            result.checked_div(right)
        };
        result = match next {
            Err(e) => return Err(e),
            Ok(v) => v,
        };
    }
    Ok(result)
}

/// `Additive := Multiplicative (('+' | '-') Multiplicative)*`, folded left to right.
pub fn parse_addition_subtraction(chars: &Vec<char>, position: &mut usize) -> (r: Result<
    Rational,
    EvalError,
>)
    requires
        *old(position) <= chars@.len(),
    ensures
        parsed_as(r, *final(position)) == spec_additive(chars@, *old(position) as int),
        r matches Ok(v) ==> v.wf() && *old(position) < *final(position) <= chars@.len(),
    decreases chars@.len() - *old(position), 2nat,
{
    let ghost start = *position as int;
    let mut result = match parse_multiplication_division(chars, position) {
        Err(e) => return Err(e),
        Ok(v) => v,
    };
    while *position < chars.len() && (chars[*position] == '+' || chars[*position] == '-')
        invariant
            start == *old(position) as int,
            start < *position <= chars@.len(),
            result.wf(),
            spec_additive(chars@, start) == spec_additive_rest(chars@, *position as int, result),
        decreases chars@.len() - *position,
    {
        let op = chars[*position];
        *position = *position + 1;
        let right = match parse_multiplication_division(chars, position) {
            Err(e) => return Err(e),
            Ok(v) => v,
        };
        let next = if op == '+' {
            result.checked_add(right)
        } else {
            result.checked_sub(right)
        };
        result = match next {
            Err(e) => return Err(e),
            Ok(v) => v,
        };
    }
    Ok(result)
}

/// The input normalizer: the characters of `expression` without its spaces.
pub fn strip_whitespace(expression: &str) -> (r: Vec<char>)
    ensures
        r@ == strip_spaces(expression@),
{
    let mut out: Vec<char> = Vec::new();
    let ghost mut seen: Seq<char> = Seq::empty();
    for c in it: expression.chars()
        invariant
            it.seq() == expression@,
            seen == it.seq().take(it.index() as int),
            out@ == strip_spaces(seen),
    {
        proof {
            assert(it.seq().take(it.index() + 1) =~= seen.push(c));
            seen.lemma_filter_push(c, |x: char| x != ' ');
            assert(strip_spaces(seen.push(c)) == if c != ' ' {
                strip_spaces(seen).push(c)
            } else {
                strip_spaces(seen)
            });
            seen = seen.push(c);
        }
        if c != ' ' {
            out.push(c);
        }
    }
    proof {
        assert(seen =~= expression@);
    }
    out
}

/// Evaluates one line: spaces are removed, the text is read as one additive
/// expression, and any text left after it (a stray `)`, say) is rejected with
/// `TrailingInput` rather than ignored.
pub fn evaluate_expression(expression: &str) -> (r: Result<Rational, EvalError>)
    ensures
        outcome(r) == spec_evaluate(expression@),
        r matches Ok(v) ==> v.wf(),
{
    let chars = strip_whitespace(expression);
    let mut position: usize = 0;
    let value = match parse_addition_subtraction(&chars, &mut position) {
        Err(e) => return Err(e),
        Ok(v) => v,
    };
    if position < chars.len() {
        return Err(EvalError::TrailingInput(chars[position]));
    }
    Ok(value)
}

} // verus!

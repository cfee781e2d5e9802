use vstd::prelude::*;

use crate::error::{outcome, ErrorKind, EvalError};
use crate::evaluator::{
    apply_op, digit_count, dot_count, is_number_char, literal_value, number_end, spec_additive,
    spec_additive_rest, spec_atomic, spec_evaluate, spec_multiplicative, spec_multiplicative_rest,
    strip_spaces, Parsed,
};
use crate::rational::{rat_neg, Rational};

verus! {

/// An arithmetic expression as a tree: the meaning that its written form should have.
pub enum Expr {
    /// A decimal literal, as it is written.
    Literal(Seq<char>),
    Negate(Box<Expr>),
    /// An expression in brackets.
    Paren(Box<Expr>),
    Add(Box<Expr>, Box<Expr>),
    Sub(Box<Expr>, Box<Expr>),
    Mul(Box<Expr>, Box<Expr>),
    Div(Box<Expr>, Box<Expr>),
}

/// A decimal literal: digits with at most one point.
pub open spec fn is_decimal(t: Seq<char>) -> bool {
    &&& t.len() > 0
    &&& forall|k: int| 0 <= k < t.len() ==> is_number_char(#[trigger] t[k])
    &&& dot_count(t) <= 1
    &&& digit_count(t) >= 1
}

/// Every literal of the tree is a decimal literal.
pub open spec fn well_formed(e: Expr) -> bool
    decreases e,
{
    match e {
        Expr::Literal(t) => is_decimal(t),
        Expr::Negate(x) => well_formed(*x),
        Expr::Paren(x) => well_formed(*x),
        Expr::Add(l, r) => well_formed(*l) && well_formed(*r),
        Expr::Sub(l, r) => well_formed(*l) && well_formed(*r),
        Expr::Mul(l, r) => well_formed(*l) && well_formed(*r),
        Expr::Div(l, r) => well_formed(*l) && well_formed(*r),
    }
}

/// `op` applied to two outcomes, the left one first.
pub open spec fn combine(
    op: char,
    a: Result<Rational, ErrorKind>,
    b: Result<Rational, ErrorKind>,
) -> Result<Rational, ErrorKind> {
    match a {
        Err(e) => Err(e),
        Ok(x) => match b {
            Err(e) => Err(e),
            Ok(y) => apply_op(op, x, y),
        },
    }
}

/// The value of the tree in exact arithmetic, operands evaluated left before right.
pub open spec fn value(e: Expr) -> Result<Rational, ErrorKind>
    decreases e,
{
    match e {
        Expr::Literal(t) => literal_value(t),
        Expr::Negate(x) => match value(*x) {
            Err(err) => Err(err),
            Ok(v) => rat_neg(v),
        },
        Expr::Paren(x) => value(*x),
        Expr::Add(l, r) => combine('+', value(*l), value(*r)),
        Expr::Sub(l, r) => combine('-', value(*l), value(*r)),
        Expr::Mul(l, r) => combine('*', value(*l), value(*r)),
        Expr::Div(l, r) => combine('/', value(*l), value(*r)),
    }
}

/// Orders the ways of reading one tree (0: sum, 1: product, 2: operand,
/// 3: product up to its end) so that each steps to another on the same tree
/// only towards a smaller rank.
pub open spec fn rank(e: Expr, level: nat) -> nat {
    match e {
        Expr::Add(_, _) | Expr::Sub(_, _) => if level == 0 {
            0
        } else if level == 2 {
            1
        } else if level == 1 {
            2
        } else {
            3
        },
        Expr::Mul(_, _) | Expr::Div(_, _) => if level == 1 {
            0
        } else if level == 3 {
            1
        } else if level == 0 {
            2
        } else {
            3
        },
        _ => if level == 2 {
            0
        } else if level == 1 {
            1
        } else if level == 3 {
            2
        } else {
            3
        },
    }
}

/// The tree written as a sum: sums and differences chain to the left without brackets.
pub open spec fn render_sum(e: Expr) -> Seq<char>
    decreases e, rank(e, 0),
{
    match e {
        Expr::Add(l, r) => render_sum(*l) + seq!['+'] + render_term(*r),
        Expr::Sub(l, r) => render_sum(*l) + seq!['-'] + render_term(*r),
        _ => render_term(e),
    }
}

/// The tree written as a product: products and quotients chain to the left without brackets.
pub open spec fn render_term(e: Expr) -> Seq<char>
    decreases e, rank(e, 1),
{
    match e {
        Expr::Mul(l, r) => render_term(*l) + seq!['*'] + render_factor(*r),
        Expr::Div(l, r) => render_term(*l) + seq!['/'] + render_factor(*r),
        _ => render_factor(e),
    }
}

/// The tree written as one operand: a literal, a negation, or a bracketed sum.
pub open spec fn render_factor(e: Expr) -> Seq<char>
    decreases e, rank(e, 2),
{
    match e {
        Expr::Literal(t) => t,
        Expr::Negate(x) => seq!['-'] + render_factor(*x),
        Expr::Paren(x) => seq!['('] + render_sum(*x) + seq![')'],
        _ => seq!['('] + render_sum(e) + seq![')'],
    }
}

/// The written form of a tree: usual precedence, left association, brackets
/// where these would read it otherwise, and the tree's own bracket nodes.
pub open spec fn render(e: Expr) -> Seq<char> {
    render_sum(e)
}

/// An operand's outcome with the position after it.
pub open spec fn at(r: Result<Rational, ErrorKind>, p: int) -> Parsed {
    match r {
        Err(e) => Err(e),
        Ok(v) => Ok((v, p)),
    }
}

/// `rest` cannot continue a numeric literal.
pub open spec fn ends_literal(rest: Seq<char>) -> bool {
    rest.len() == 0 || !is_number_char(rest[0])
}

/// `rest` cannot continue a product.
pub open spec fn ends_term(rest: Seq<char>) -> bool {
    rest.len() == 0 || !(is_number_char(rest[0]) || rest[0] == '*' || rest[0] == '/')
}

proof fn lemma_number_end(s: Seq<char>, pos: int, end: int)
    requires
        0 <= pos <= end <= s.len(),
        forall|k: int| pos <= k < end ==> is_number_char(#[trigger] s[k]),
        end == s.len() || !is_number_char(s[end]),
    ensures
        number_end(s, pos) == end,
    decreases end - pos,
{
    if pos < end {
        lemma_number_end(s, pos + 1, end);
    }
}

proof fn lemma_factor_nonempty(e: Expr)
    requires
        well_formed(e),
    ensures
        render_factor(e).len() > 0,
{
}

/// Reading one operand at the start of its written form yields the tree's value.
#[verifier::spinoff_prover]
#[verifier::rlimit(100)]
proof fn lemma_read_factor(e: Expr, pre: Seq<char>, rest: Seq<char>)
    requires
        well_formed(e),
        ends_literal(rest),
    ensures
        spec_atomic(pre + render_factor(e) + rest, pre.len() as int) == at(
            value(e),
            pre.len() as int + render_factor(e).len(),
        ),
    decreases e, rank(e, 2),
{
    let f = render_factor(e);
    let s = pre + f + rest;
    let pos = pre.len() as int;
    match e {
        Expr::Literal(t) => {
            assert(s[pos] == t[0]);
            lemma_number_end(s, pos, pos + t.len());
            assert(s.subrange(pos, pos + t.len()) =~= t);
        },
        Expr::Negate(x) => {
            let pre2 = pre + seq!['-'];
            assert(s =~= pre2 + render_factor(*x) + rest);
            assert(s[pos] == '-');
            lemma_read_factor(*x, pre2, rest);
        },
        Expr::Paren(x) => {
            let pre2 = pre + seq!['('];
            let rest2 = seq![')'] + rest;
            assert(s =~= pre2 + render_sum(*x) + rest2);
            assert(s[pos] == '(');
            lemma_read_sum(*x, pre2, rest2);
            let q = pre2.len() as int + render_sum(*x).len();
            assert(s[q] == ')');
        },
        _ => {
            let pre2 = pre + seq!['('];
            let rest2 = seq![')'] + rest;
            assert(s =~= pre2 + render_sum(e) + rest2);
            assert(s[pos] == '(');
            lemma_read_sum(e, pre2, rest2);
            let q = pre2.len() as int + render_sum(e).len();
            assert(s[q] == ')');
        },
    }
}

/// Reading a product at the start of its written form yields the tree's value,
/// then goes on with whatever product operators follow.
#[verifier::spinoff_prover]
#[verifier::rlimit(100)]
proof fn lemma_read_term(e: Expr, pre: Seq<char>, rest: Seq<char>)
    requires
        well_formed(e),
        ends_literal(rest),
    ensures
        spec_multiplicative(pre + render_term(e) + rest, pre.len() as int) == (match value(e) {
            Err(err) => Err(err),
            Ok(v) => spec_multiplicative_rest(
                pre + render_term(e) + rest,
                pre.len() as int + render_term(e).len(),
                v,
            ),
        }),
    decreases e, rank(e, 1),
{
    let s = pre + render_term(e) + rest;
    let pos = pre.len() as int;
    match e {
        Expr::Mul(l, r) => {
            let tl = render_term(*l);
            let fr = render_factor(*r);
            let rest1 = seq!['*'] + fr + rest;
            assert(s =~= pre + tl + rest1);
            lemma_read_term(*l, pre, rest1);
            let pre2 = pre + tl + seq!['*'];
            assert(s =~= pre2 + fr + rest);
            lemma_read_factor(*r, pre2, rest);
            lemma_read_term_step(*l, *r, '*', pre, rest);
        },
        Expr::Div(l, r) => {
            let tl = render_term(*l);
            let fr = render_factor(*r);
            let rest1 = seq!['/'] + fr + rest;
            assert(s =~= pre + tl + rest1);
            lemma_read_term(*l, pre, rest1);
            let pre2 = pre + tl + seq!['/'];
            assert(s =~= pre2 + fr + rest);
            lemma_read_factor(*r, pre2, rest);
            lemma_read_term_step(*l, *r, '/', pre, rest);
        },
        _ => {
            lemma_read_factor(e, pre, rest);
            lemma_factor_nonempty(e);
        },
    }
}

/// One product operator step, given how its two operands read.
#[verifier::spinoff_prover]
#[verifier::rlimit(100)]
proof fn lemma_read_term_step(l: Expr, r: Expr, op: char, pre: Seq<char>, rest: Seq<char>)
    requires
        well_formed(r),
        op == '*' || op == '/',
        ({
            let s = pre + render_term(l) + seq![op] + render_factor(r) + rest;
            &&& spec_multiplicative(s, pre.len() as int) == (match value(l) {
                Err(err) => Err(err),
                Ok(v) => spec_multiplicative_rest(s, pre.len() as int + render_term(l).len(), v),
            })
            &&& spec_atomic(s, pre.len() as int + render_term(l).len() + 1) == at(
                value(r),
                pre.len() as int + render_term(l).len() + 1 + render_factor(r).len(),
            )
        }),
    ensures
        ({
            let t = render_term(l) + seq![op] + render_factor(r);
            let s = pre + t + rest;
            spec_multiplicative(s, pre.len() as int) == (match combine(op, value(l), value(r)) {
                Err(err) => Err(err),
                Ok(v) => spec_multiplicative_rest(s, pre.len() as int + t.len(), v),
            })
        }),
{
    let tl = render_term(l);
    let t = tl + seq![op] + render_factor(r);
    let s = pre + t + rest;
    assert(s =~= pre + tl + seq![op] + render_factor(r) + rest);
    let q = pre.len() as int + tl.len();
    assert(s[q] == op);
    lemma_factor_nonempty(r);
}

/// A product that nothing continues reads exactly as far as its written form.
proof fn lemma_read_whole_term(e: Expr, pre: Seq<char>, rest: Seq<char>)
    requires
        well_formed(e),
        ends_term(rest),
    ensures
        spec_multiplicative(pre + render_term(e) + rest, pre.len() as int) == at(
            value(e),
            pre.len() as int + render_term(e).len(),
        ),
    decreases e, rank(e, 3),
{
    let s = pre + render_term(e) + rest;
    lemma_read_term(e, pre, rest);
    let end = pre.len() as int + render_term(e).len();
    assert(end == s.len() || s[end] == rest[0]);
}

/// Reading a sum at the start of its written form yields the tree's value,
/// then goes on with whatever sum operators follow.
#[verifier::spinoff_prover]
#[verifier::rlimit(100)]
proof fn lemma_read_sum(e: Expr, pre: Seq<char>, rest: Seq<char>)
    requires
        well_formed(e),
        ends_term(rest),
    ensures
        spec_additive(pre + render_sum(e) + rest, pre.len() as int) == (match value(e) {
            Err(err) => Err(err),
            Ok(v) => spec_additive_rest(
                pre + render_sum(e) + rest,
                pre.len() as int + render_sum(e).len(),
                v,
            ),
        }),
    decreases e, rank(e, 0),
{
    let s = pre + render_sum(e) + rest;
    match e {
        Expr::Add(l, r) => {
            let sl = render_sum(*l);
            let tr = render_term(*r);
            let rest1 = seq!['+'] + tr + rest;
            assert(s =~= pre + sl + rest1);
            lemma_read_sum(*l, pre, rest1);
            let pre2 = pre + sl + seq!['+'];
            assert(s =~= pre2 + tr + rest);
            lemma_read_whole_term(*r, pre2, rest);
            assert(s =~= pre + sl + seq!['+'] + tr + rest);
            lemma_read_sum_step(*l, *r, '+', pre, rest);
        },
        Expr::Sub(l, r) => {
            let sl = render_sum(*l);
            let tr = render_term(*r);
            let rest1 = seq!['-'] + tr + rest;
            assert(s =~= pre + sl + rest1);
            lemma_read_sum(*l, pre, rest1);
            let pre2 = pre + sl + seq!['-'];
            assert(s =~= pre2 + tr + rest);
            lemma_read_whole_term(*r, pre2, rest);
            assert(s =~= pre + sl + seq!['-'] + tr + rest);
            lemma_read_sum_step(*l, *r, '-', pre, rest);
        },
        _ => {
            lemma_read_whole_term(e, pre, rest);
            lemma_term_nonempty(e);
        },
    }
}

/// One sum operator step, given how its two operands read.
#[verifier::spinoff_prover]
#[verifier::rlimit(100)]
proof fn lemma_read_sum_step(l: Expr, r: Expr, op: char, pre: Seq<char>, rest: Seq<char>)
    requires
        well_formed(r),
        op == '+' || op == '-',
        ({
            let s = pre + render_sum(l) + seq![op] + render_term(r) + rest;
            &&& spec_additive(s, pre.len() as int) == (match value(l) {
                Err(err) => Err(err),
                Ok(v) => spec_additive_rest(s, pre.len() as int + render_sum(l).len(), v),
            })
            &&& spec_multiplicative(s, pre.len() as int + render_sum(l).len() + 1) == at(
                value(r),
                pre.len() as int + render_sum(l).len() + 1 + render_term(r).len(),
            )
        }),
    ensures
        ({
            let t = render_sum(l) + seq![op] + render_term(r);
            let s = pre + t + rest;
            spec_additive(s, pre.len() as int) == (match combine(op, value(l), value(r)) {
                Err(err) => Err(err),
                Ok(v) => spec_additive_rest(s, pre.len() as int + t.len(), v),
            })
        }),
{
    let sl = render_sum(l);
    let t = sl + seq![op] + render_term(r);
    let s = pre + t + rest;
    assert(s =~= pre + sl + seq![op] + render_term(r) + rest);
    let q = pre.len() as int + sl.len();
    assert(s[q] == op);
    lemma_term_nonempty(r);
}

proof fn lemma_term_nonempty(e: Expr)
    requires
        well_formed(e),
    ensures
        render_term(e).len() > 0,
{
    match e {
        Expr::Mul(l, r) => {
            assert(render_term(e) =~= render_term(*l) + seq!['*'] + render_factor(*r));
        },
        Expr::Div(l, r) => {
            assert(render_term(e) =~= render_term(*l) + seq!['/'] + render_factor(*r));
        },
        _ => lemma_factor_nonempty(e),
    }
}

/// No character of the text is a space.
pub open spec fn no_space(t: Seq<char>) -> bool {
    forall|k: int| 0 <= k < t.len() ==> #[trigger] t[k] != ' '
}

proof fn lemma_no_space_concat(a: Seq<char>, b: Seq<char>)
    requires
        no_space(a),
        no_space(b),
    ensures
        no_space(a + b),
{
    assert forall|k: int| 0 <= k < (a + b).len() implies #[trigger] (a + b)[k] != ' ' by {
        if k >= a.len() {
            assert((a + b)[k] == b[k - a.len()]);
        }
    }
}

/// Removing spaces from a text without any leaves it as it is.
proof fn lemma_strip_no_space(t: Seq<char>)
    requires
        no_space(t),
    ensures
        strip_spaces(t) == t,
    decreases t.len(),
{
    if t.len() == 0 {
        reveal(Seq::filter);
    } else {
        let init = t.drop_last();
        lemma_strip_no_space(init);
        init.lemma_filter_push(t.last(), |c: char| c != ' ');
        assert(init.push(t.last()) =~= t);
    }
}

/// Written forms hold no spaces (levels as in [`rank`]).
proof fn lemma_render_no_space(e: Expr, level: nat)
    requires
        well_formed(e),
        level <= 2,
    ensures
        level == 0 ==> no_space(render_sum(e)),
        level == 1 ==> no_space(render_term(e)),
        level == 2 ==> no_space(render_factor(e)),
    decreases e, rank(e, level),
{
    if level == 0 {
        match e {
            Expr::Add(l, r) => {
                lemma_render_no_space(*l, 0);
                lemma_render_no_space(*r, 1);
                lemma_no_space_concat(render_sum(*l), seq!['+']);
                lemma_no_space_concat(render_sum(*l) + seq!['+'], render_term(*r));
            },
            Expr::Sub(l, r) => {
                lemma_render_no_space(*l, 0);
                lemma_render_no_space(*r, 1);
                lemma_no_space_concat(render_sum(*l), seq!['-']);
                lemma_no_space_concat(render_sum(*l) + seq!['-'], render_term(*r));
            },
            _ => lemma_render_no_space(e, 1),
        }
    } else if level == 1 {
        match e {
            Expr::Mul(l, r) => {
                lemma_render_no_space(*l, 1);
                lemma_render_no_space(*r, 2);
                lemma_no_space_concat(render_term(*l), seq!['*']);
                lemma_no_space_concat(render_term(*l) + seq!['*'], render_factor(*r));
            },
            Expr::Div(l, r) => {
                lemma_render_no_space(*l, 1);
                lemma_render_no_space(*r, 2);
                lemma_no_space_concat(render_term(*l), seq!['/']);
                lemma_no_space_concat(render_term(*l) + seq!['/'], render_factor(*r));
            },
            _ => lemma_render_no_space(e, 2),
        }
    } else {
        match e {
            Expr::Literal(t) => {},
            Expr::Negate(x) => {
                lemma_render_no_space(*x, 2);
                lemma_no_space_concat(seq!['-'], render_factor(*x));
            },
            Expr::Paren(x) => {
                lemma_render_no_space(*x, 0);
                lemma_no_space_concat(seq!['('], render_sum(*x));
                lemma_no_space_concat(seq!['('] + render_sum(*x), seq![')']);
            },
            _ => {
                lemma_render_no_space(e, 0);
                lemma_no_space_concat(seq!['('], render_sum(e));
                lemma_no_space_concat(seq!['('] + render_sum(e), seq![')']);
            },
        }
    }
}

/// Standard infix arithmetic: the written form of any well-formed expression
/// tree (products before sums, same-precedence chains read from the left,
/// brackets where these conventions would read it otherwise, unary minus on
/// an operand) evaluates to the tree's own value, the first error included.
pub proof fn lemma_evaluates_standard_arithmetic(e: Expr)
    requires
        well_formed(e),
    ensures
        spec_evaluate(render(e)) == value(e),
{
    let t = render_sum(e);
    lemma_render_no_space(e, 0);
    lemma_strip_no_space(t);
    lemma_read_sum(e, seq![], seq![]);
    assert(seq![] + t + seq![] =~= t);
}

/// A divisor whose value is exactly zero makes the division fail with
/// `DivisionByZero`, whatever the left operand's value.
pub proof fn lemma_division_by_zero_fails(left: Expr, right: Expr)
    requires
        well_formed(left),
        well_formed(right),
        value(left) is Ok,
        value(right) matches Ok(z) && z.num == 0,
    ensures
        spec_evaluate(render(Expr::Div(Box::new(left), Box::new(right)))) == Err::<
            Rational,
            ErrorKind,
        >(ErrorKind::DivisionByZero),
{
    lemma_evaluates_standard_arithmetic(Expr::Div(Box::new(left), Box::new(right)));
}

/// An opening bracket followed by an error-free expression and nothing else
/// fails with `UnclosedParenthesis`.
pub proof fn lemma_unclosed_parenthesis_fails(e: Expr)
    requires
        well_formed(e),
        value(e) is Ok,
    ensures
        spec_evaluate(seq!['('] + render(e)) == Err::<Rational, ErrorKind>(
            ErrorKind::UnclosedParenthesis,
        ),
{
    let t = seq!['('] + render_sum(e);
    lemma_render_no_space(e, 0);
    lemma_no_space_concat(seq!['('], render_sum(e));
    lemma_strip_no_space(t);
    lemma_read_sum(e, seq!['('], seq![]);
    assert(seq!['('] + render_sum(e) + seq![] =~= t);
    assert(t[0] == '(');
}

/// A `/` whose operand reads as exactly zero stops the product with
/// `DivisionByZero`, whatever value was folded before it; nothing after that
/// operand is read.
pub proof fn lemma_zero_divisor_stops_product(s: Seq<char>, pos: int, acc: Rational)
    requires
        0 <= pos < s.len(),
        s[pos] == '/',
        spec_atomic(s, pos + 1) matches Ok((z, _)) && z.num == 0,
    ensures
        spec_multiplicative_rest(s, pos, acc) == Err::<(Rational, int), ErrorKind>(
            ErrorKind::DivisionByZero,
        ),
{
}

/// Spaces do not matter: a space inserted anywhere leaves the outcome unchanged.
pub proof fn lemma_space_insensitive(a: Seq<char>, b: Seq<char>)
    ensures
        spec_evaluate(a + seq![' '] + b) == spec_evaluate(a + b),
{
    broadcast use Seq::filter_distributes_over_add;

    let keep = |c: char| c != ' ';
    reveal(Seq::filter);
    Seq::<char>::empty().lemma_filter_push(' ', keep);
    assert(Seq::<char>::empty().push(' ') =~= seq![' ']);
    assert(strip_spaces(seq![' ']) =~= Seq::<char>::empty());
    assert(strip_spaces(a + seq![' '] + b) =~= strip_spaces(a + b));
}

/// Evaluation keeps no state between calls: two evaluations of the same text,
/// each with its own cursor, have the same outcome.
pub proof fn lemma_evaluation_repeatable(
    input: Seq<char>,
    first: Result<Rational, EvalError>,
    second: Result<Rational, EvalError>,
)
    requires
        outcome(first) == spec_evaluate(input),
        outcome(second) == spec_evaluate(input),
    ensures
        outcome(first) == outcome(second),
{
}

} // verus!

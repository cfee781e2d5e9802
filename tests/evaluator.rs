use mathrust::error::EvalError;
use mathrust::evaluator::{
    evaluate_expression, parse_addition_subtraction, parse_multiplication_division, parse_number,
    parse_parentheses_and_numbers, strip_whitespace,
};
use mathrust::rational::Rational;

fn value_of(text: &str) -> f64 {
    let r = evaluate_expression(text).expect("expression should evaluate");
    r.num as f64 / r.den as f64
}

fn exact(text: &str) -> (i64, i64) {
    let r = evaluate_expression(text).expect("expression should evaluate");
    (r.num, r.den)
}

#[test]
fn precedence_multiplication_before_addition() {
    assert_eq!(value_of("2+3*4"), 14.0);
    assert_eq!(exact("2+3*4"), (14, 1));
}

#[test]
fn parentheses_override_precedence() {
    assert_eq!(value_of("(2+3)*4"), 20.0);
}

#[test]
fn same_precedence_chains_are_left_associative() {
    assert_eq!(value_of("10-3-2"), 5.0);
    assert_eq!(value_of("100/5/2"), 10.0);
}

#[test]
fn repeated_unary_minus() {
    assert_eq!(value_of("--5"), 5.0);
    assert_eq!(value_of("-2*-3"), 6.0);
    assert_eq!(exact("-(2+3)"), (-5, 1));
}

#[test]
fn division_by_zero_fails() {
    assert_eq!(evaluate_expression("5/0"), Err(EvalError::DivisionByZero));
    assert_eq!(evaluate_expression("0/0"), Err(EvalError::DivisionByZero));
    assert_eq!(evaluate_expression("(1+2)/(3-3)"), Err(EvalError::DivisionByZero));
    assert_eq!(evaluate_expression("7/0.00"), Err(EvalError::DivisionByZero));
}

#[test]
fn first_error_wins() {
    assert_eq!(evaluate_expression("1/0+@"), Err(EvalError::DivisionByZero));
}

#[test]
fn missing_closing_parenthesis() {
    assert_eq!(evaluate_expression("(2+3"), Err(EvalError::UnclosedParenthesis));
    assert_eq!(evaluate_expression("(2+3]"), Err(EvalError::UnclosedParenthesis));
}

#[test]
fn invalid_number_keeps_its_text() {
    assert_eq!(
        evaluate_expression("2.3.4"),
        Err(EvalError::InvalidNumber("2.3.4".to_string()))
    );
    assert_eq!(evaluate_expression("1+."), Err(EvalError::InvalidNumber(".".to_string())));
}

#[test]
fn unknown_token() {
    assert_eq!(evaluate_expression("2+@"), Err(EvalError::UnexpectedCharacter('@')));
    assert_eq!(evaluate_expression("()"), Err(EvalError::UnexpectedCharacter(')')));
    assert_eq!(evaluate_expression("2\t+1"), Err(EvalError::TrailingInput('\t')));
}

#[test]
fn unexpected_end() {
    assert_eq!(evaluate_expression(""), Err(EvalError::UnexpectedEnd));
    assert_eq!(evaluate_expression("   "), Err(EvalError::UnexpectedEnd));
    assert_eq!(evaluate_expression("2+"), Err(EvalError::UnexpectedEnd));
    assert_eq!(evaluate_expression("-"), Err(EvalError::UnexpectedEnd));
}

#[test]
fn trailing_input_is_rejected() {
    assert_eq!(evaluate_expression("2+3)"), Err(EvalError::TrailingInput(')')));
    assert_eq!(evaluate_expression("2(3)"), Err(EvalError::TrailingInput('(')));
}

#[test]
fn evaluation_is_repeatable() {
    let first = evaluate_expression("20-3*4");
    let second = evaluate_expression("20-3*4");
    assert_eq!(first, second);
    assert_eq!(first, Ok(Rational { num: 8, den: 1 }));
    assert_eq!(evaluate_expression("2+@"), evaluate_expression("2+@"));
}

#[test]
fn whitespace_is_ignored() {
    assert_eq!(evaluate_expression("2 + 3 * 4"), evaluate_expression("2+3*4"));
    assert_eq!(exact(" 3 0 / ( 1 5 - 1 2 ) "), (10, 1));
}

#[test]
fn decimals_are_exact() {
    assert_eq!(exact("0.1+0.2"), (3, 10));
    assert_eq!(exact("1/3*3"), (1, 1));
    assert_eq!(exact("2.5"), (5, 2));
    assert_eq!(exact("5."), (5, 1));
    assert_eq!(exact(".5"), (1, 2));
    assert_eq!(exact("007"), (7, 1));
    assert_eq!(exact("1/4-1/2"), (-1, 4));
}

#[test]
fn sizes_beyond_sixty_four_bits_overflow() {
    assert_eq!(exact("9223372036854775807"), (9223372036854775807, 1));
    assert_eq!(evaluate_expression("9223372036854775808"), Err(EvalError::Overflow));
    assert_eq!(evaluate_expression("9223372036854775807+1"), Err(EvalError::Overflow));
    assert_eq!(evaluate_expression("0.0000000000000000001"), Err(EvalError::Overflow));
    assert_eq!(exact("0.000000000000000001"), (1, 1_000_000_000_000_000_000));
}

#[test]
fn literals_fail_only_when_their_value_does_not_fit() {
    assert_eq!(exact("0.5000000000000000000"), (1, 2));
    assert_eq!(exact("1.0000000000000000000000000000000000000000000"), (1, 1));
    assert_eq!(exact("00000000000000000000000000000000000000000012.50"), (25, 2));
    assert_eq!(
        exact("0.00000000000000000021684043449710088680149056017398834228515625"),
        (1, 4611686018427387904)
    );
    assert_eq!(
        evaluate_expression("0.000000000000000000108420217248550443400745280086994171142578125"),
        Err(EvalError::Overflow)
    );
    assert_eq!(exact("9223372036854775807.000000000000000000000"), (9223372036854775807, 1));
    assert_eq!(evaluate_expression("9223372036854775808.5"), Err(EvalError::Overflow));
    assert_eq!(evaluate_expression("0.1234567890123456789"), Err(EvalError::Overflow));
}

#[test]
fn normalizer_removes_spaces_only() {
    assert_eq!(strip_whitespace(" 1 + 2 "), vec!['1', '+', '2']);
    assert_eq!(strip_whitespace("a\tb"), vec!['a', '\t', 'b']);
    assert_eq!(strip_whitespace(""), Vec::<char>::new());
}

#[test]
fn levels_advance_the_cursor() {
    let chars: Vec<char> = "2*3+4)".chars().collect();
    let mut position: usize = 0;
    assert_eq!(parse_parentheses_and_numbers(&chars, &mut position), Ok(Rational { num: 2, den: 1 }));
    assert_eq!(position, 1);
    position = 0;
    assert_eq!(parse_multiplication_division(&chars, &mut position), Ok(Rational { num: 6, den: 1 }));
    assert_eq!(position, 3);
    position = 0;
    assert_eq!(parse_addition_subtraction(&chars, &mut position), Ok(Rational { num: 10, den: 1 }));
    assert_eq!(position, 5);
}

#[test]
fn number_scanner_reads_maximal_run() {
    let chars: Vec<char> = "12.5+1".chars().collect();
    let mut position: usize = 0;
    assert_eq!(parse_number(&chars, &mut position), Ok(Rational { num: 25, den: 2 }));
    assert_eq!(position, 4);
    let bad: Vec<char> = "1..2*".chars().collect();
    position = 0;
    assert_eq!(parse_number(&bad, &mut position), Err(EvalError::InvalidNumber("1..2".to_string())));
    assert_eq!(position, 4);
    let long: Vec<char> = "(99999999999999999999)".chars().collect();
    position = 1;
    assert_eq!(parse_number(&long, &mut position), Err(EvalError::Overflow));
    assert_eq!(position, 21);
}

#[test]
fn rational_arithmetic() {
    let a = Rational { num: 1, den: 2 };
    let b = Rational { num: 1, den: 3 };
    assert_eq!(a.checked_add(b), Ok(Rational { num: 5, den: 6 }));
    assert_eq!(a.checked_sub(b), Ok(Rational { num: 1, den: 6 }));
    assert_eq!(a.checked_mul(b), Ok(Rational { num: 1, den: 6 }));
    assert_eq!(a.checked_div(b), Ok(Rational { num: 3, den: 2 }));
    assert_eq!(a.checked_neg(), Ok(Rational { num: -1, den: 2 }));
    assert_eq!(a.checked_div(Rational::from_integer(0)), Err(EvalError::DivisionByZero));
    assert_eq!(Rational::from_integer(i64::MIN).checked_neg(), Err(EvalError::Overflow));
    assert_eq!(Rational { num: 1, den: 2 }.checked_div(Rational { num: -1, den: 2 }), Ok(Rational { num: -1, den: 1 }));
}


use vstd::prelude::*;

verus! {

/// Why an expression could not be evaluated.
#[derive(Debug, Clone, PartialEq, Eq)]
pub enum EvalError {
    /// The text ended where an operand was required.
    UnexpectedEnd,
    /// An opening bracket has no matching closing bracket.
    UnclosedParenthesis,
    /// A run of digits and points is not a decimal number (the run is kept).
    InvalidNumber(String),
    /// A character that cannot start an operand.
    UnexpectedCharacter(char),
    /// The right operand of a division is zero.
    DivisionByZero,
    /// A literal or an intermediate result does not fit the 64-bit fraction form.
    Overflow,
    /// A complete expression is followed by more text (its first character is kept).
    TrailingInput(char),
}

/// The mathematical content of an [`EvalError`].
pub enum ErrorKind {
    UnexpectedEnd,
    UnclosedParenthesis,
    InvalidNumber(Seq<char>),
    UnexpectedCharacter(char),
    DivisionByZero,
    Overflow,
    TrailingInput(char),
}

impl View for EvalError {
    type V = ErrorKind;

    open spec fn view(&self) -> ErrorKind {
        match self {
            EvalError::UnexpectedEnd => ErrorKind::UnexpectedEnd,
            EvalError::UnclosedParenthesis => ErrorKind::UnclosedParenthesis,
            EvalError::InvalidNumber(text) => ErrorKind::InvalidNumber(text@),
            EvalError::UnexpectedCharacter(c) => ErrorKind::UnexpectedCharacter(*c),
            EvalError::DivisionByZero => ErrorKind::DivisionByZero,
            EvalError::Overflow => ErrorKind::Overflow,
            EvalError::TrailingInput(c) => ErrorKind::TrailingInput(*c),
        }
    }
}

/// An outcome with its error replaced by the error's view.
pub open spec fn outcome<T>(r: Result<T, EvalError>) -> Result<T, ErrorKind> {
    match r {
        Ok(v) => Ok(v),
        Err(e) => Err(e@),
    }
}

} // verus!

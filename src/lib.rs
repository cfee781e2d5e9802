//! Arithmetic tutoring library.
//!
//! The centre is a recursive-descent evaluator for `+ - * /`, brackets and
//! unary minus over decimal literals ([`evaluator`]). It folds each precedence
//! level left to right as it reads, with one cursor shared by the three levels.
//! Values are exact fractions ([`rational`]) kept in lowest terms, so that
//! `0.1+0.2` is exactly `3/10`; a literal or result that leaves the 64-bit
//! fraction form is reported as an overflow rather than rounded. A zero divisor
//! is an error, and so is text left over after a complete expression.
//!
//! [`laws`] proves that the evaluator reads standard infix notation: the written
//! form of any expression tree evaluates to the tree's value. [`number_theory`]
//! holds the factor and multiple helpers of the calculators, and [`calculators`]
//! names them.

pub mod calculators;
pub mod error;
pub mod evaluator;
pub mod laws;
pub mod number_theory;
pub mod rational;

use vstd::prelude::*;

verus! {

/// What can go wrong while parsing, computing or grading.
#[derive(Debug, Clone, Copy, PartialEq, Eq, Structural)]
pub enum Error {
    /// A token is not a decimal number, or its value does not fit.
    ParseError,
    /// The response list holds a token that is not a number.
    InvalidResponses,
    /// The response list holds fewer numbers than can be graded.
    TooFewResponses,
    /// A division whose divisor is zero.
    DivisionByZero,
    /// A result whose reduced numerator or denominator leaves the `i64` range.
    Overflow,
}

} // verus!

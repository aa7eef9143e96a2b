//! The recoverable failures of the library.

use vstd::prelude::*;

verus! {

/// Why an operation refused its input.
#[derive(Clone, Copy, Debug, PartialEq, Eq, Structural)]
pub enum NumError {
    /// The text is not a decimal literal: it is empty, holds a second `.`,
    /// or holds a character that is neither a digit nor a leading sign.
    Format,
    /// A magnitude holds an element that is not a digit.
    Validation,
    /// The divisor is zero.
    DivisionByZero,
    /// An operand of a Euclidean division is negative.
    NegativeOperand,
}

impl NumError {
    /// A short description of the failure.
    pub fn message(&self) -> (r: &'static str)
        ensures
            r@ == (match *self {
                NumError::Format => "invalid format"@,
                NumError::Validation => "a digit is not between 0 and 9"@,
                NumError::DivisionByZero => "division by zero"@,
                NumError::NegativeOperand => "a negative operand"@,
            }),
    {
        match self {
            NumError::Format => "invalid format",
            NumError::Validation => "a digit is not between 0 and 9",
            NumError::DivisionByZero => "division by zero",
            NumError::NegativeOperand => "a negative operand",
        }
    }
}

} // verus!

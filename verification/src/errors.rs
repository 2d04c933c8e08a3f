use vstd::prelude::*;

verus! {

/// The one runtime error of field arithmetic: division by the zero element,
/// which has no multiplicative inverse.
#[derive(Debug, Clone, Copy, PartialEq, Eq, Structural)]
pub enum FieldElementError {
    DivisionByZero,
}

/// Errors of the validating curve-point constructor.
#[derive(Debug, Clone, Copy, PartialEq, Eq, Structural)]
pub enum PointError {
    /// Both coordinates were given, but they do not satisfy the curve equation.
    NotOnCurve,
    /// Exactly one coordinate was given: a malformed input.
    InvalidPoint,
}

} // verus!

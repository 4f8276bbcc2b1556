use vstd::prelude::*;

verus! {

/// The ways in which an operation on field elements or curve points can fail.
#[derive(Clone, Copy, Debug, PartialEq, Eq, Structural)]
pub enum EccError {
    /// The modulus is not positive, or the value lies outside `[0, modulus)`.
    InvalidElement,
    /// The operands belong to fields with different moduli.
    FieldMismatch,
    /// The exponent is negative.
    NegativeExponent,
    /// The divisor is the zero element.
    DivisionByZero,
    /// The divisor is not zero but has no reciprocal, which can only happen
    /// when the modulus is not prime.
    NoInverse,
    /// The coordinates do not satisfy the curve equation.
    NotOnCurve,
    /// The operands lie on curves with different coefficients.
    DifferentCurve,
}

} // verus!

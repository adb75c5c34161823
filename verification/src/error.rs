use vstd::prelude::*;

verus! {

/// Every way a calculation can fail, from reading a literal through
/// evaluating a parsed expression.  All arithmetic is checked: overflow of
/// the mantissa or of the scale is reported, never wrapped.
#[derive(Clone, Copy, Debug, PartialEq, Eq, Structural)]
pub enum CalcError {
    /// A numeric literal whose text is not a well-formed decimal number.
    MalformedNumber,
    /// A character or token that the grammar does not allow at that spot.
    UnexpectedToken,
    /// Input ended where the grammar still required a token.
    UnexpectedEnd,
    /// The divisor was the zero value.
    DivisionByZero,
    /// An exponent that is not a non-negative integer.
    UnsupportedExponent,
    /// An expression node carrying an operator no parse can produce.
    MalformedTree,
    /// A mantissa or scale that left the representable range.
    ArithmeticOverflow,
}

} // verus!

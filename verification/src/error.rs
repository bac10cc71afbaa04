use vstd::prelude::*;

verus! {

/// The ways a numeric literal can fail to convert to a 256-bit value.
///
/// Every failure is deterministic: it depends on the input text alone.
#[derive(Clone, Copy, Debug, PartialEq, Eq, Structural)]
pub enum ParseError {
    /// The numeric value is `2^256` or larger and cannot be represented.
    Overflow,
    /// A float literal keeps a true fractional remainder that the exponent
    /// cannot absorb; truncating it silently is never permitted.
    UnsupportedFraction,
    /// The exponent text is not an unsigned decimal integer that fits the
    /// machine word.
    MalformedExponent,
    /// The input is not a decimal integer, a `0x` hexadecimal integer, or a
    /// decimal float of the supported shape.
    UnsupportedLiteralShape,
}

} // verus!

//! Conversion of numeric literal text — decimal, `0x` hexadecimal, or decimal
//! float with an unsigned exponent — into a 256-bit unsigned integer held as
//! four 64-bit limbs, least significant first. Values of `2^256` or more are
//! rejected, never truncated, and a float whose fractional digits cannot be
//! absorbed by its exponent is rejected rather than rounded.

pub mod error;
pub mod laws;
pub mod limbs;
pub mod model;
pub mod parser;

pub use error::ParseError;
pub use limbs::digits_to_limbs;
pub use limbs::hex_to_limbs;
pub use limbs::limbs_to_decimal;
pub use parser::expand_float;
pub use parser::parse_integer;
pub use parser::parse_literal;

use primitive_types::U256;
use u256_literal::{digits_to_limbs, expand_float, parse_integer, parse_literal, ParseError};

#[test]
fn test_integer() {
    assert_eq!(
        U256(parse_literal("1234567890").unwrap()),
        U256::from_dec_str("1234567890").unwrap()
    );
}

#[test]
fn test_float() {
    assert_eq!(
        U256(parse_literal("123.45678e5").unwrap()),
        U256::from_dec_str("12345678").unwrap()
    );
    assert_eq!(
        U256(parse_literal("123.45e5").unwrap()),
        U256::from_dec_str("12345000").unwrap()
    );
    assert_eq!(
        U256(parse_literal("123e5").unwrap()),
        U256::from_dec_str("12300000").unwrap()
    );
    assert_eq!(
        U256(parse_literal("123.").unwrap()),
        U256::from_dec_str("123").unwrap()
    );
}

#[test]
fn plain_decimal_limbs() {
    assert_eq!(parse_literal("1234567890"), Ok([1234567890, 0, 0, 0]));
}

#[test]
fn hex_against_independent_computation() {
    let limbs = parse_literal("0x123456789827823721235568483").unwrap();
    let expected = U256::from_str_radix("123456789827823721235568483", 16).unwrap();
    assert_eq!(U256(limbs), expected);
}

#[test]
fn hex_and_decimal_agree() {
    assert_eq!(parse_literal("255").unwrap(), parse_literal("0xff").unwrap());
    assert_eq!(parse_literal("255"), Ok([255, 0, 0, 0]));
    assert_eq!(parse_literal("0XFF"), Ok([255, 0, 0, 0]));
    assert_eq!(
        parse_literal("18446744073709551616"),
        Ok([0, 1, 0, 0]) // 2^64
    );
    assert_eq!(parse_literal("0x10000000000000000"), Ok([0, 1, 0, 0]));
}

#[test]
fn float_expansions_match_integers() {
    assert_eq!(
        parse_literal("123.45678e5").unwrap(),
        parse_integer("12345678").unwrap()
    );
    assert_eq!(
        parse_literal("123.45e5").unwrap(),
        parse_integer("12345000").unwrap()
    );
    assert_eq!(
        parse_literal("123e5").unwrap(),
        parse_integer("12300000").unwrap()
    );
    assert_eq!(parse_literal("123.").unwrap(), parse_integer("123").unwrap());
}

#[test]
fn expand_float_canonical_strings() {
    assert_eq!(expand_float("123.45e5").unwrap(), "12345000");
    assert_eq!(expand_float("123.45678e5").unwrap(), "12345678");
    assert_eq!(expand_float("123e5").unwrap(), "12300000");
    assert_eq!(expand_float("123.").unwrap(), "123");
    assert_eq!(expand_float("1E3").unwrap(), "1000");
}

#[test]
fn capital_exponent_marker() {
    assert_eq!(parse_literal("1E5"), Ok([100000, 0, 0, 0]));
}

#[test]
fn fraction_wider_than_exponent_rejected() {
    assert_eq!(
        parse_literal("123.4567e2"),
        Err(ParseError::UnsupportedFraction)
    );
    assert_eq!(parse_literal("123.45"), Err(ParseError::UnsupportedFraction));
    assert_eq!(expand_float("1.5"), Err(ParseError::UnsupportedFraction));
}

#[test]
fn boundary_max_and_overflow() {
    let max = "115792089237316195423570985008687907853269984665640564039457584007913129639935";
    assert_eq!(
        parse_literal(max),
        Ok([u64::MAX, u64::MAX, u64::MAX, u64::MAX])
    );
    let too_big =
        "115792089237316195423570985008687907853269984665640564039457584007913129639936";
    assert_eq!(parse_literal(too_big), Err(ParseError::Overflow));
}

#[test]
fn hex_boundary_and_overflow() {
    let max_hex = "0xffffffffffffffffffffffffffffffffffffffffffffffffffffffffffffffff";
    assert_eq!(
        parse_literal(max_hex),
        Ok([u64::MAX, u64::MAX, u64::MAX, u64::MAX])
    );
    let too_big_hex = "0x10000000000000000000000000000000000000000000000000000000000000000";
    assert_eq!(parse_literal(too_big_hex), Err(ParseError::Overflow));
}

#[test]
fn overflow_through_float_expansion() {
    assert_eq!(parse_literal("1e78"), Err(ParseError::Overflow));
    assert_eq!(parse_literal("2e77"), Err(ParseError::Overflow));
}

#[test]
fn malformed_exponents() {
    assert_eq!(parse_literal("1e"), Err(ParseError::MalformedExponent));
    assert_eq!(parse_literal("1e-5"), Err(ParseError::MalformedExponent));
    assert_eq!(parse_literal("1e+5"), Err(ParseError::MalformedExponent));
    assert_eq!(parse_literal("1.2e"), Err(ParseError::MalformedExponent));
    assert_eq!(
        parse_literal("1e18446744073709551616"),
        Err(ParseError::MalformedExponent)
    );
}

#[test]
fn unsupported_shapes() {
    assert_eq!(parse_literal(""), Err(ParseError::UnsupportedLiteralShape));
    assert_eq!(parse_literal("abc"), Err(ParseError::UnsupportedLiteralShape));
    assert_eq!(parse_literal("-5"), Err(ParseError::UnsupportedLiteralShape));
    assert_eq!(
        parse_literal("-1.2e5"),
        Err(ParseError::UnsupportedLiteralShape)
    );
    assert_eq!(parse_literal("0x"), Err(ParseError::UnsupportedLiteralShape));
    assert_eq!(
        parse_literal("0xzz"),
        Err(ParseError::UnsupportedLiteralShape)
    );
    assert_eq!(
        parse_literal("12e1.5"),
        Err(ParseError::UnsupportedLiteralShape)
    );
    assert_eq!(
        parse_literal("-1.5"),
        Err(ParseError::UnsupportedLiteralShape)
    );
    assert_eq!(parse_literal("-1e"), Err(ParseError::UnsupportedLiteralShape));
    assert_eq!(
        parse_literal("-1.2e+5"),
        Err(ParseError::UnsupportedLiteralShape)
    );
    assert_eq!(
        parse_literal("abc.def"),
        Err(ParseError::UnsupportedLiteralShape)
    );
    assert_eq!(
        expand_float("-123.4e5"),
        Err(ParseError::UnsupportedLiteralShape)
    );
    assert_eq!(
        parse_literal("0x12.5"),
        Err(ParseError::UnsupportedLiteralShape)
    );
}

#[test]
fn hex_digits_that_look_like_markers() {
    // `E` after a hex prefix is a digit, not an exponent marker.
    assert_eq!(parse_literal("0xE5"), Ok([229, 0, 0, 0]));
    assert_eq!(parse_literal("0xe"), Ok([14, 0, 0, 0]));
}

#[test]
fn leading_zeros_and_zero_values() {
    assert_eq!(digits_to_limbs("000123"), Ok([123, 0, 0, 0]));
    assert_eq!(digits_to_limbs("0"), Ok([0, 0, 0, 0]));
    assert_eq!(parse_literal("0x0"), Ok([0, 0, 0, 0]));
    assert_eq!(parse_literal("0e5"), Ok([0, 0, 0, 0]));
}

#[test]
fn digit_string_validation() {
    assert_eq!(digits_to_limbs(""), Err(ParseError::UnsupportedLiteralShape));
    assert_eq!(
        digits_to_limbs("12a3"),
        Err(ParseError::UnsupportedLiteralShape)
    );
    let eighty_nines = "9".repeat(80);
    assert_eq!(digits_to_limbs(&eighty_nines), Err(ParseError::Overflow));
}

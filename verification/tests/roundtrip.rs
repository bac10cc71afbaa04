use u256_literal::{digits_to_limbs, limbs_to_decimal};

#[test]
fn roundtrip_strips_leading_zeros() {
    let limbs = digits_to_limbs("000123").unwrap();
    assert_eq!(limbs_to_decimal(limbs), vec!['1', '2', '3']);
}

#[test]
fn roundtrip_zero() {
    assert_eq!(limbs_to_decimal([0, 0, 0, 0]), vec!['0']);
}

#[test]
fn roundtrip_max_value() {
    let max = "115792089237316195423570985008687907853269984665640564039457584007913129639935";
    let limbs = digits_to_limbs(max).unwrap();
    let rendered: String = limbs_to_decimal(limbs).into_iter().collect();
    assert_eq!(rendered, max);
}

#[test]
fn roundtrip_single_limb() {
    let rendered: String = limbs_to_decimal([1234567890, 0, 0, 0]).into_iter().collect();
    assert_eq!(rendered, "1234567890");
}

#[test]
fn roundtrip_multi_limb() {
    // 2^64 renders as its exact decimal digits.
    let rendered: String = limbs_to_decimal([0, 1, 0, 0]).into_iter().collect();
    assert_eq!(rendered, "18446744073709551616");
}

use edwards_chip::field::Fe;

const MODULUS_BYTES: [u8; 32] = [
    0x01, 0x00, 0x00, 0x00, 0xff, 0xff, 0xff, 0xff, 0xfe, 0x5b, 0xfe, 0xff, 0x02, 0xa4, 0xbd, 0x53,
    0x05, 0xd8, 0xa1, 0x09, 0x08, 0xd8, 0x39, 0x33, 0x48, 0x7d, 0x9d, 0x29, 0x53, 0xa7, 0xed, 0x73,
];

fn modulus_minus(n: u8) -> Fe {
    let mut bytes = MODULUS_BYTES;
    bytes[0] = 1 - n;
    // the lowest byte of the modulus is one, so only `n <= 1` stays in it
    assert!(n <= 1);
    Fe::from_repr(bytes).unwrap()
}

#[test]
fn encodings_at_and_above_the_modulus_are_refused() {
    assert!(Fe::from_repr(MODULUS_BYTES).is_none());
    assert!(Fe::from_repr([0xff; 32]).is_none());
    let mut below = MODULUS_BYTES;
    below[0] = 0;
    assert!(Fe::from_repr(below).is_some());
    assert_eq!(Fe::from_repr(below).unwrap().to_repr(), below);
}

#[test]
fn arithmetic_wraps_at_the_modulus() {
    let top = modulus_minus(1);
    // (p - 1) + 2 = 1
    assert!(top.plus(&Fe::from_u64(2)).is_equal(&Fe::one()));
    // (p - 1) * (p - 1) = 1
    assert!(top.times(&top).is_equal(&Fe::one()));
    // -(1) = p - 1
    assert!(Fe::one().negated().is_equal(&top));
    // 0 - 1 = p - 1
    assert!(Fe::zero().minus(&Fe::one()).is_equal(&top));
    // -(0) = 0
    assert!(Fe::zero().negated().is_zero());
    // 3 * 5 = 15 and 3 + 5 = 8
    assert!(Fe::from_u64(3).times(&Fe::from_u64(5)).is_equal(&Fe::from_u64(15)));
    assert!(Fe::from_u64(3).plus(&Fe::from_u64(5)).is_equal(&Fe::from_u64(8)));
}

#[test]
fn inverses_multiply_to_one() {
    assert!(Fe::zero().inverse().is_none());
    assert!(Fe::zero().inverse_or_zero().is_zero());
    let two = Fe::from_u64(2);
    let half = two.inverse().unwrap();
    assert!(half.times(&two).is_equal(&Fe::one()));
    // the inverse of two is (p + 1) / 2
    let expected: [u8; 32] = [
        0x01, 0x00, 0x00, 0x80, 0xff, 0xff, 0xff, 0x7f, 0xff, 0x2d, 0xff, 0x7f, 0x01, 0xd2, 0xde,
        0xa9, 0x02, 0xec, 0xd0, 0x04, 0x04, 0xec, 0x9c, 0x19, 0xa4, 0xbe, 0xce, 0x94, 0xa9, 0xd3,
        0xf6, 0x39,
    ];
    assert_eq!(half.to_repr(), expected);
    assert!(Fe::from_u64(6).divided_by(&Fe::from_u64(3)).is_equal(&two));
    assert!(Fe::from_u64(6).divided_by(&Fe::zero()).is_zero());
}

#[test]
fn integers_encode_little_endian() {
    let mut expected = [0u8; 32];
    expected[0] = 0x34;
    expected[1] = 0x12;
    assert_eq!(Fe::from_u64(0x1234).to_repr(), expected);
    let mut wide = [0u8; 32];
    wide[..16].copy_from_slice(&u128::MAX.to_le_bytes());
    assert_eq!(Fe::from_u128(u128::MAX).to_repr(), wide);
    assert_eq!(Fe::zero().to_repr(), [0u8; 32]);
    assert!(Fe::one().is_equal(&Fe::from_u64(1)));
    assert!(!Fe::one().is_equal(&Fe::from_u64(2)));
}

#[test]
fn decimal_numerals_parse() {
    assert!(Fe::from_decimal("0").unwrap().is_zero());
    assert!(Fe::from_decimal("4660").unwrap().is_equal(&Fe::from_u64(0x1234)));
    // the modulus itself reduces to zero, the modulus plus one to one
    let modulus = "52435875175126190479447740508185965837690552500527637822603658699938581184513";
    assert!(Fe::from_decimal(modulus).unwrap().is_zero());
    let above = "52435875175126190479447740508185965837690552500527637822603658699938581184514";
    assert!(Fe::from_decimal(above).unwrap().is_equal(&Fe::one()));
    assert!(Fe::from_decimal("").is_none());
    assert!(Fe::from_decimal("007").is_none());
    assert!(Fe::from_decimal("12a").is_none());
    assert!(Fe::from_decimal("-1").is_none());
}

use edwards_chip::bits::{byte_to_le_bits, decompose_u128};

#[test]
fn byte_bits_of_four() {
    assert_eq!(
        byte_to_le_bits(&4),
        vec![false, false, true, false, false, false, false, false]
    );
}

#[test]
fn decompose_u128_reconstructs() {
    let a = u128::from_le_bytes([1; 16]);
    let bits = decompose_u128(&a);
    assert_eq!(bits.len(), 128);
    let mut sum: u128 = 0;
    for (i, b) in bits.iter().enumerate() {
        assert!(*b <= 1);
        sum += (*b as u128) << i;
    }
    assert_eq!(sum, a);
}

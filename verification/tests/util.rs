use ark_std::rand::RngCore;
use edwards_chip::bits::{
    byte_to_le_bits, decompose_u128, field_decompose, field_decompose_u128, to_le_bits,
};
use edwards_chip::curve::Point;
use edwards_chip::field::Fe;
use edwards_chip::util::{leak, neg_generator_times_2_to_256};

fn scalar_from_raw(limbs: [u64; 4]) -> [u8; 32] {
    let mut bytes = [0u8; 32];
    for (i, limb) in limbs.iter().enumerate() {
        bytes[8 * i..8 * i + 8].copy_from_slice(&limb.to_le_bytes());
    }
    bytes
}

fn times(p: &Point, s: &[u8; 32]) -> Point {
    let mut acc = Point::identity();
    for bit in to_le_bits(s).iter().rev() {
        acc = acc.doubled();
        if *bit {
            acc = acc.plus(p);
        }
    }
    acc
}

#[test]
fn test_neg_generator_times_2_to_256() {
    // 5BC8F5F97CD877D899AD88181CE5880FFB38EC08FFFB13FCFFFFFFFD00000003
    let neg_2_to_256 = scalar_from_raw([
        0xFFFFFFFD00000003,
        0xFB38EC08FFFB13FC,
        0x99AD88181CE5880F,
        0x5BC8F5F97CD877D8,
    ]);

    let g_times_neg_2_to_256 = times(&Point::generator(), &neg_2_to_256);

    println!("g_times_neg_2_to_256: x: {:?}", g_times_neg_2_to_256.x);
    println!("g_times_neg_2_to_256: y: {:?}", g_times_neg_2_to_256.y);

    let (p, x, y) = neg_generator_times_2_to_256().unwrap();
    assert!(p.is_on_curve());
    assert!(p.x.is_equal(&x) && p.y.is_equal(&y));
    assert!(g_times_neg_2_to_256.x.is_equal(&x));
    assert!(g_times_neg_2_to_256.y.is_equal(&y));
}

#[test]
fn test_to_bites() {
    assert_eq!(
        byte_to_le_bits(&4),
        vec![false, false, true, false, false, false, false, false]
    );

    {
        let f = Fe::from_u64(4).to_repr();
        let sequence = to_le_bits(&f);

        for (i, v) in sequence.iter().enumerate() {
            if i == 2 {
                assert_eq!(*v, true)
            } else {
                assert_eq!(*v, false)
            }
        }
    }

    {
        let f = Fe::from_u64(4 + (1 << 13)).to_repr();
        let sequence = to_le_bits(&f);

        for (i, v) in sequence.iter().enumerate() {
            if i == 2 || i == 13 {
                assert_eq!(*v, true, "{}-th coefficient failed", i)
            } else {
                assert_eq!(*v, false, "{}-th coefficient failed", i)
            }
        }
    }
}

#[test]
fn test_field_decom() {
    let mut rng = ark_std::test_rng();
    let mut a = [0u8; 32];
    rng.fill_bytes(&mut a);
    let (_high, _low) = field_decompose(&a);
    let (high, low) = field_decompose_u128(&a);
    assert_eq!(high.to_le_bytes(), a[16..]);
    assert_eq!(low.to_le_bytes(), a[..16]);
    assert!(_high.is_equal(&Fe::from_u128(high)));
    assert!(_low.is_equal(&Fe::from_u128(low)));

    let a = u128::from_le_bytes([1; 16]);
    let _bits = decompose_u128(&a);
    assert_eq!(_bits.len(), 128);
    for (i, b) in _bits.iter().enumerate() {
        assert_eq!(*b, if i % 8 == 0 { 1 } else { 0 });
    }
}

#[test]
fn bits_round_trip_at_the_boundaries() {
    for value in [0u128, 1, 2, 0x8000_0000_0000_0000_0000_0000_0000_0000, u128::MAX] {
        let bits = decompose_u128(&value);
        let mut sum: u128 = 0;
        for (i, b) in bits.iter().enumerate() {
            assert!(*b <= 1);
            sum += (*b as u128) << i;
        }
        assert_eq!(sum, value);
    }
    for byte in [0u8, 1, 0x80, 0xa5, 0xff] {
        let bits = byte_to_le_bits(&byte);
        let mut sum: u8 = 0;
        for (i, b) in bits.iter().enumerate() {
            sum |= (*b as u8) << i;
        }
        assert_eq!(sum, byte);
    }
    // the largest element of the field: the modulus minus one
    let top: [u8; 32] = [
        0x00, 0x00, 0x00, 0x00, 0xff, 0xff, 0xff, 0xff, 0xfe, 0x5b, 0xfe, 0xff, 0x02, 0xa4, 0xbd,
        0x53, 0x05, 0xd8, 0xa1, 0x09, 0x08, 0xd8, 0x39, 0x33, 0x48, 0x7d, 0x9d, 0x29, 0x53, 0xa7,
        0xed, 0x73,
    ];
    for encoding in [[0u8; 32], top, [0xff; 32]] {
        let bits = to_le_bits(&encoding);
        assert_eq!(bits.len(), 256);
        let mut back = [0u8; 32];
        for (i, b) in bits.iter().enumerate() {
            back[i / 8] |= (*b as u8) << (i % 8);
        }
        assert_eq!(back, encoding);
    }
}

#[test]
fn leak_gives_the_value_or_the_default() {
    let seven = 7u64;
    assert_eq!(leak(&Some(&seven)), 7);
    assert_eq!(leak::<u64>(&None), 0);
    assert_eq!(leak(&Some(&true)), true);
    assert_eq!(leak::<bool>(&None), false);
}

use ark_bls12_381::Fr;
use ark_msm::curve::FieldElement;
use ark_msm::pippenger::bit_to_fr;
use ark_msm::scalar::{bits_to_u64, Scalar};

#[test]
fn test_fr_to_bits() {
    let fr = Fr::from(8u64);

    let bits = Scalar::from_fr(&FieldElement { inner: fr }).to_bits();

    println!("{:?}", bits);
}

#[test]
fn test_fr_to_c_bit() {
    let fr = Fr::from(8u64 + 2u64.pow(15));
    let res = Scalar::from_fr(&FieldElement { inner: fr }).to_digits(15);
    for i in 0..18 {
        println!("{:?}", Scalar::from_u64(res[i]).to_bits());
    }
}

#[test]
fn bits_of_eight() {
    let s = Scalar::from_u64(8);
    let bits = s.to_bits();
    assert_eq!(bits.len(), 256);
    for (i, bit) in bits.iter().enumerate() {
        assert_eq!(*bit, i == 3);
    }
}

#[test]
fn from_fr_matches_from_u64() {
    let a = Scalar::from_fr(&FieldElement { inner: Fr::from(123_456_789u64) });
    let b = Scalar::from_u64(123_456_789);
    assert_eq!(a.bytes, b.bytes);
}

#[test]
fn bit_round_trip() {
    for x in [0u64, 1, 8, 255, 256, 12345678901234567, u64::MAX] {
        let s = Scalar::from_u64(x);
        let bits = s.to_bits();
        let back = Scalar::from_bits(&bits).unwrap();
        assert_eq!(back.bytes, s.bytes);
    }
}

#[test]
fn from_bits_rejects_wrong_length() {
    assert!(Scalar::from_bits(&vec![true; 255]).is_none());
    assert!(Scalar::from_bits(&vec![true; 257]).is_none());
    assert!(Scalar::from_bits(&vec![false; 256]).is_some());
}

#[test]
fn from_bytes_le_checks_length() {
    assert!(Scalar::from_bytes_le(vec![0u8; 31]).is_none());
    let s = Scalar::from_bytes_le(vec![7u8; 32]).unwrap();
    assert_eq!(s.bytes, vec![7u8; 32]);
}

#[test]
fn digit_round_trip() {
    // 8 + 2^15: with width 15 the digits are [8, 1, 0, ..., 0] over 18 windows.
    let s = Scalar::from_u64(8 + (1 << 15));
    let digits = s.to_digits(15);
    assert_eq!(digits.len(), 18);
    assert_eq!(digits[0], 8);
    assert_eq!(digits[1], 1);
    for j in 2..18 {
        assert_eq!(digits[j], 0);
    }
    // Reconstruct the value from the digits for several widths.
    for c in [1usize, 4, 15, 16, 63] {
        let digits = s.to_digits(c);
        let mut value: u128 = 0;
        for (j, d) in digits.iter().enumerate().rev() {
            if c * j < 128 {
                value = (value << c) + *d as u128;
            } else {
                assert_eq!(*d, 0);
            }
        }
        assert_eq!(value, 8 + (1 << 15));
    }
}

#[test]
fn digits_straddling_a_window_boundary() {
    // Bits 14 and 15 sit on either side of the first width-15 boundary.
    let s = Scalar::from_u64((1 << 14) | (1 << 15));
    let digits = s.to_digits(15);
    assert_eq!(digits[0], 1 << 14);
    assert_eq!(digits[1], 1);
    assert!(digits[2..].iter().all(|d| *d == 0));
}

#[test]
fn digits_of_zero_scalar() {
    let digits = Scalar::zero().to_digits(16);
    assert_eq!(digits.len(), 16);
    assert!(digits.iter().all(|d| *d == 0));
}

#[test]
fn bits_to_u64_reads_little_endian() {
    // 0b1010 read least-significant bit first.
    let bits = vec![false, true, false, true];
    assert_eq!(bits_to_u64(&bits), 10);
    assert_eq!(bits_to_u64(&[]), 0);
    assert_eq!(bits_to_u64(&vec![true; 64]), u64::MAX);
}

#[test]
fn bit_to_fr_matches_field_constant() {
    let bits = vec![false, false, false, true];
    assert_eq!(bit_to_fr(&bits).inner, Fr::from(8u64));
    assert_eq!(bit_to_fr(&[]).inner, Fr::from(0u64));
}

#[test]
fn bit_to_fr_accepts_zero_padded_slices() {
    // A 256-bit slice is fine as long as every set bit sits below index 64.
    let mut bits = vec![false; 256];
    bits[3] = true;
    bits[63] = true;
    assert_eq!(bit_to_fr(&bits).inner, Fr::from(8u64 + (1u64 << 63)));
    assert_eq!(bits_to_u64(&bits), 8 + (1 << 63));
}

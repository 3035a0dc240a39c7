use curve25519_dalek::scalar::Scalar as Reference;
use poseidon_merkle::mds::generate;
use poseidon_merkle::Scalar;

// The order of the field, little-endian.
const ORDER: [u8; 32] = [
    0xed, 0xd3, 0xf5, 0x5c, 0x1a, 0x63, 0x12, 0x58, 0xd6, 0x9c, 0xf7, 0xa2, 0xde, 0xf9, 0xde, 0x14,
    0x00, 0x00, 0x00, 0x00, 0x00, 0x00, 0x00, 0x00, 0x00, 0x00, 0x00, 0x00, 0x00, 0x00, 0x00, 0x10,
];

#[test]
fn scalar_from_u64_is_little_endian() {
    let mut expected = [0u8; 32];
    expected[0] = 0x02;
    expected[1] = 0x01;
    assert_eq!(Scalar::from_u64(258).to_bytes(), expected);
    assert_eq!(Scalar::zero().to_bytes(), [0u8; 32]);

    let mut one = [0u8; 32];
    one[0] = 1;
    assert_eq!(Scalar::one().to_bytes(), one);
    assert_eq!(Scalar::from_u64(u64::MAX).to_bytes()[..8], [0xff; 8]);
}

#[test]
fn scalar_arithmetic() {
    let two = Scalar::from_u64(2);
    let three = Scalar::from_u64(3);

    assert_eq!(two.add(&three), Scalar::from_u64(5));
    assert_eq!(two.mul(&three), Scalar::from_u64(6));
    assert_ne!(two.add(&three), two);
    assert_ne!(two.mul(&three), two);
    assert_eq!(two.mul(&Scalar::zero()), Scalar::zero());
    assert_eq!(two.add(&Scalar::zero()), two);
}

#[test]
fn scalar_arithmetic_wraps_at_the_order() {
    let mut below = ORDER;
    below[0] -= 1;
    let last = Scalar::from_bytes_mod_order(below);
    assert_eq!(last.to_bytes(), below);

    assert_eq!(last.add(&Scalar::one()), Scalar::zero());
    assert_eq!(last.add(&Scalar::from_u64(3)), Scalar::from_u64(2));
    // (-1) * (-1) = 1
    assert_eq!(last.mul(&last), Scalar::one());
}

#[test]
fn scalar_from_bytes_reduces() {
    assert_eq!(Scalar::from_bytes_mod_order(ORDER), Scalar::zero());

    let mut above = ORDER;
    above[0] += 5;
    assert_eq!(Scalar::from_bytes_mod_order(above), Scalar::from_u64(5));

    let all = Scalar::from_bytes_mod_order([0xff; 32]);
    assert_ne!(all.to_bytes(), [0xff; 32]);
    assert_eq!(all.to_bytes(), Reference::from_bytes_mod_order([0xff; 32]).to_bytes());
}

#[test]
fn scalar_invert() {
    let two = Scalar::from_u64(2);
    let half = two.invert();
    assert_ne!(half, two);
    assert_eq!(half.mul(&two), Scalar::one());
    assert_eq!(Scalar::one().invert(), Scalar::one());

    let x = Scalar::from_u64(123456789);
    assert_eq!(x.invert().mul(&x), Scalar::one());
}

#[test]
fn scalar_equality() {
    assert!(Scalar::from_u64(7).equals(&Scalar::from_u64(7)));
    assert!(!Scalar::from_u64(7).equals(&Scalar::from_u64(8)));
    assert!(Scalar::from_u64(7) == Scalar::from_u64(7));
    assert!(Scalar::from_u64(7) != Scalar::from_u64(1 << 40));
}

#[test]
fn mds_is_the_cauchy_matrix() {
    let matrix = generate(5);
    assert_eq!(matrix.len(), 5);
    for i in 0..5 {
        assert_eq!(matrix[i].len(), 5);
        for j in 0..5 {
            let denominator = Scalar::from_u64((i + j + 5) as u64);
            assert_eq!(matrix[i][j].mul(&denominator), Scalar::one());

            let expected = Reference::from((i + j + 5) as u64).invert();
            assert_eq!(matrix[i][j].to_bytes(), expected.to_bytes());
        }
    }
    assert!(generate(0).is_empty());
}

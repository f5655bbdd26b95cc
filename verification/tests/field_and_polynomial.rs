use threshold_ecies::error::ThresholdError;
use threshold_ecies::field::{random_scalar, Scalar};
use threshold_ecies::interpolation::interpolate_at_origin;
use threshold_ecies::lagrange::{has_duplicate, lagrange_coeff};
use threshold_ecies::polynomial::{eval_poly, Polynomial};

/// The field order, little-endian.
const MODULUS_LE: [u8; 32] = [
    0xb7, 0x2c, 0xf7, 0xd6, 0x5e, 0x0e, 0x97, 0xd0, 0x82, 0x10, 0xc8, 0xcc, 0x93, 0x20, 0x68, 0xa6,
    0x00, 0x3b, 0x34, 0x01, 0x01, 0x3b, 0x67, 0x06, 0xa9, 0xaf, 0x33, 0x65, 0xea, 0xb4, 0x7d, 0x0e,
];

fn small(x: u8) -> [u8; 32] {
    let mut bytes = [0u8; 32];
    bytes[0] = x;
    bytes
}

fn minus(x: u64) -> [u8; 32] {
    (-jubjub::Fr::from(x)).to_bytes()
}

fn scalars(values: &[u64]) -> Vec<Scalar> {
    values.iter().map(|v| Scalar::from_u64(*v)).collect()
}

#[test]
fn scalar_from_u64_has_little_endian_encoding() {
    assert_eq!(Scalar::from_u64(0).to_bytes(), [0u8; 32]);
    assert_eq!(Scalar::from_u64(17).to_bytes(), small(17));
    let mut expected = [0u8; 32];
    expected[..8].copy_from_slice(&u64::MAX.to_le_bytes());
    assert_eq!(Scalar::from_u64(u64::MAX).to_bytes(), expected);
}

#[test]
fn scalar_from_bytes_accepts_only_canonical_encodings() {
    assert!(Scalar::from_bytes(&MODULUS_LE).is_none());
    assert!(Scalar::from_bytes(&[0xff; 32]).is_none());
    let mut below = MODULUS_LE;
    below[0] -= 1;
    let s = Scalar::from_bytes(&below).expect("modulus - 1 is canonical");
    assert_eq!(s.to_bytes(), below);
    assert_eq!(s.to_bytes(), minus(1));
    assert_eq!(Scalar::from_bytes(&small(9)).unwrap().to_bytes(), small(9));
}

#[test]
fn scalar_from_bytes_wide_reduces_modulo_the_field_order() {
    let mut wide = [0u8; 64];
    wide[0] = 1;
    assert_eq!(Scalar::from_bytes_wide(&wide).to_bytes(), small(1));
    // the modulus itself reduces to zero, the modulus plus five to five
    let mut wide = [0u8; 64];
    wide[..32].copy_from_slice(&MODULUS_LE);
    assert_eq!(Scalar::from_bytes_wide(&wide).to_bytes(), small(0));
    wide[0] += 5;
    assert_eq!(Scalar::from_bytes_wide(&wide).to_bytes(), small(5));
    // 2^256 lies above the modulus and is reduced to a canonical value
    let mut wide = [0u8; 64];
    wide[32] = 1;
    let reduced = Scalar::from_bytes_wide(&wide).to_bytes();
    assert!(Scalar::from_bytes(&reduced).is_some());
    assert_ne!(reduced, small(0));
}

#[test]
fn random_scalars_are_canonical_and_differ() {
    let a = random_scalar().expect("entropy");
    let b = random_scalar().expect("entropy");
    assert!(Scalar::from_bytes(&a.to_bytes()).is_some());
    assert!(Scalar::from_bytes(&b.to_bytes()).is_some());
    assert_ne!(a.to_bytes(), b.to_bytes());
}

#[test]
fn eval_poly_gives_exact_values() {
    // 1 + 2x + 3x^2
    let coeffs = scalars(&[1, 2, 3]);
    assert_eq!(eval_poly(&coeffs, Scalar::from_u64(0)).to_bytes(), small(1));
    assert_eq!(eval_poly(&coeffs, Scalar::from_u64(1)).to_bytes(), small(6));
    assert_eq!(eval_poly(&coeffs, Scalar::from_u64(2)).to_bytes(), small(17));
    assert_eq!(eval_poly(&coeffs, Scalar::from_u64(5)).to_bytes(), small(86));
}

#[test]
fn eval_poly_of_no_coefficients_is_zero() {
    assert_eq!(eval_poly(&[], Scalar::from_u64(7)).to_bytes(), small(0));
}

#[test]
fn eval_poly_of_a_constant_ignores_the_point() {
    let coeffs = scalars(&[42]);
    assert_eq!(eval_poly(&coeffs, Scalar::from_u64(0)).to_bytes(), small(42));
    assert_eq!(eval_poly(&coeffs, Scalar::from_u64(123456)).to_bytes(), small(42));
}

#[test]
fn eval_poly_wraps_around_the_field_order() {
    // (q - 1) + 2 * 1 = q + 1 = 1 in the field
    let top = Scalar::from_bytes(&minus(1)).unwrap();
    let coeffs = vec![top, Scalar::from_u64(2)];
    assert_eq!(eval_poly(&coeffs, Scalar::from_u64(1)).to_bytes(), small(1));
}

#[test]
fn polynomial_evaluate_matches_eval_poly() {
    let p = Polynomial::from_coefficients(scalars(&[4, 0, 1])).unwrap();
    assert_eq!(p.threshold(), 3);
    assert_eq!(p.evaluate(1).to_bytes(), small(5));
    assert_eq!(p.evaluate(3).to_bytes(), small(13));
    assert_eq!(p.evaluate(0).to_bytes(), small(4));
}

#[test]
fn polynomial_needs_a_coefficient() {
    assert!(Polynomial::from_coefficients(Vec::new()).is_none());
    assert!(Polynomial::from_coefficients(scalars(&[1])).is_some());
}

#[test]
fn random_polynomial_has_the_threshold_asked_for() {
    let p = Polynomial::random(4).expect("entropy");
    assert_eq!(p.threshold(), 4);
    let q = Polynomial::random(4).expect("entropy");
    assert_ne!(p.evaluate(1).to_bytes(), q.evaluate(1).to_bytes());
}

#[test]
fn lagrange_coeff_gives_exact_weights() {
    let subset = [1usize, 2, 3];
    // 6 / 2, 3 / -1, 2 / 2
    assert_eq!(lagrange_coeff(1, &subset).unwrap().to_bytes(), small(3));
    assert_eq!(lagrange_coeff(2, &subset).unwrap().to_bytes(), minus(3));
    assert_eq!(lagrange_coeff(3, &subset).unwrap().to_bytes(), small(1));
}

#[test]
fn lagrange_coeff_divides_in_the_field() {
    // among {2, 4}: the weight of 2 is -4 / (2 - 4) = 2, that of 4 is -2 / (4 - 2) = -1
    assert_eq!(lagrange_coeff(2, &[2, 4]).unwrap().to_bytes(), small(2));
    assert_eq!(lagrange_coeff(4, &[2, 4]).unwrap().to_bytes(), minus(1));
    // among {1, 4}: the weight of 1 is -4 / (1 - 4) = 4 / 3
    let w = lagrange_coeff(1, &[1, 4]).unwrap();
    let expected = jubjub::Fr::from(4) * jubjub::Fr::from(3).invert().unwrap();
    assert_eq!(w.to_bytes(), expected.to_bytes());
}

#[test]
fn lagrange_coeff_of_a_single_point_is_one() {
    assert_eq!(lagrange_coeff(5, &[5]).unwrap().to_bytes(), small(1));
    assert_eq!(lagrange_coeff(5, &[]).unwrap().to_bytes(), small(1));
}

#[test]
fn lagrange_coeff_weights_sum_to_one() {
    let subset = [2usize, 5, 7, 11];
    let mut sum = jubjub::Fr::zero();
    for i in subset {
        let w = lagrange_coeff(i, &subset).unwrap();
        sum += jubjub::Fr::from_bytes(&w.to_bytes()).unwrap();
    }
    assert_eq!(sum, jubjub::Fr::one());
}

#[test]
fn lagrange_coeff_fails_on_a_repeated_index() {
    assert_eq!(
        lagrange_coeff(2, &[1, 2, 2]).err(),
        Some(ThresholdError::DegenerateCoefficient)
    );
    assert_eq!(
        lagrange_coeff(1, &[1, 1]).err(),
        Some(ThresholdError::DegenerateCoefficient)
    );
    // a repetition of another index leaves this weight defined
    assert!(lagrange_coeff(1, &[1, 2, 2]).is_ok());
}

#[test]
fn has_duplicate_finds_repeated_indices() {
    assert!(!has_duplicate(&[]));
    assert!(!has_duplicate(&[3]));
    assert!(!has_duplicate(&[3, 1, 2]));
    assert!(has_duplicate(&[3, 1, 3]));
    assert!(has_duplicate(&[1, 1]));
    assert!(has_duplicate(&[4, 5, 6, 6]));
}

#[test]
fn interpolation_recovers_the_constant_coefficient() {
    // 7 + 3x + 5x^2 at 1, 2, 3
    let coeffs = scalars(&[7, 3, 5]);
    let points: Vec<(usize, Scalar)> = [1usize, 2, 3]
        .iter()
        .map(|i| (*i, eval_poly(&coeffs, Scalar::from_u64(*i as u64))))
        .collect();
    assert_eq!(points[0].1.to_bytes(), small(15));
    assert_eq!(interpolate_at_origin(&points).unwrap().to_bytes(), small(7));
}

#[test]
fn interpolation_is_independent_of_the_points_chosen() {
    let coeffs = scalars(&[200, 9, 1]);
    for subset in [[1usize, 2, 3], [2, 4, 5], [5, 3, 1], [9, 8, 7]] {
        let points: Vec<(usize, Scalar)> = subset
            .iter()
            .map(|i| (*i, eval_poly(&coeffs, Scalar::from_u64(*i as u64))))
            .collect();
        assert_eq!(interpolate_at_origin(&points).unwrap().to_bytes(), small(200));
    }
}

#[test]
fn interpolation_accepts_more_points_than_coefficients() {
    let coeffs = scalars(&[11, 2]);
    let points: Vec<(usize, Scalar)> = [3usize, 6, 9, 12, 15]
        .iter()
        .map(|i| (*i, eval_poly(&coeffs, Scalar::from_u64(*i as u64))))
        .collect();
    assert_eq!(interpolate_at_origin(&points).unwrap().to_bytes(), small(11));
}

#[test]
fn interpolation_of_random_polynomials() {
    for t in 1..=6usize {
        let p = Polynomial::random(t).expect("entropy");
        let points: Vec<(usize, Scalar)> = (1..=t).map(|i| (i, p.evaluate(i))).collect();
        assert_eq!(interpolate_at_origin(&points).unwrap().to_bytes(), p.evaluate(0).to_bytes());
    }
}

#[test]
fn interpolation_with_too_few_points_misses_the_secret() {
    let coeffs = scalars(&[7, 3, 5]);
    let points: Vec<(usize, Scalar)> =
        [1usize, 2].iter().map(|i| (*i, eval_poly(&coeffs, Scalar::from_u64(*i as u64)))).collect();
    assert_ne!(interpolate_at_origin(&points).unwrap().to_bytes(), small(7));
}

#[test]
fn interpolation_refuses_duplicate_indices() {
    let points = vec![(1usize, Scalar::from_u64(5)), (1usize, Scalar::from_u64(5))];
    assert_eq!(interpolate_at_origin(&points).err(), Some(ThresholdError::DuplicateIndex));
}

#[test]
fn interpolation_of_nothing_is_zero() {
    assert_eq!(interpolate_at_origin(&[]).unwrap().to_bytes(), small(0));
}

#[test]
fn error_kinds_are_told_apart() {
    let all = [
        ThresholdError::RandomnessFailure,
        ThresholdError::InvalidShare,
        ThresholdError::InsufficientShares,
        ThresholdError::DuplicateIndex,
        ThresholdError::DegenerateCoefficient,
        ThresholdError::EncryptionFailure,
        ThresholdError::DecryptionFailure,
    ];
    for (a, x) in all.iter().enumerate() {
        for (b, y) in all.iter().enumerate() {
            assert_eq!(a == b, x == y);
            assert_eq!(a == b, format!("{:?}", x) == format!("{:?}", y));
        }
    }
}

use shamir_sss::math::{lagrange_interpolate, FiniteField, Polynomial};
use shamir_sss::Share;

#[test]
fn field_add_wraps() {
    let f = FiniteField::new(2039);
    assert_eq!(f.add(2000, 100), 61);
    assert_eq!(f.add(u64::MAX, u64::MAX), ((u64::MAX as u128 * 2) % 2039) as u64);
}

#[test]
fn field_subtract_wraps_below_zero() {
    let f = FiniteField::new(7);
    assert_eq!(f.subtract(5, 3), 2);
    assert_eq!(f.subtract(3, 5), 5);
    assert_eq!(f.subtract(0, 14), 0);
    assert_eq!(f.subtract(20, 1), 5);
}

#[test]
fn field_multiply_is_wide() {
    let f = FiniteField::new(2039);
    assert_eq!(f.multiply(45, 46), 45 * 46 % 2039);
    assert_eq!(f.multiply(u64::MAX, u64::MAX), ((u64::MAX as u128 * u64::MAX as u128) % 2039) as u64);
}

#[test]
fn field_mod_inverse_values() {
    let f = FiniteField::new(7);
    assert_eq!(f.mod_inverse(3), Some(5));
    assert_eq!(f.mod_inverse(1), Some(1));
    assert_eq!(f.mod_inverse(10), Some(5));
    assert_eq!(f.mod_inverse(0), None);
    assert_eq!(f.mod_inverse(14), None);
}

#[test]
fn field_mod_inverse_without_common_unit() {
    let f = FiniteField::new(10);
    assert_eq!(f.mod_inverse(4), None);
    assert_eq!(f.mod_inverse(5), None);
    assert_eq!(f.mod_inverse(3), Some(7));
}

#[test]
fn field_every_inverse_multiplies_to_one() {
    let f = FiniteField::new(2039);
    for a in 1..2039u64 {
        let inv = f.mod_inverse(a).unwrap();
        assert!(inv < 2039);
        assert_eq!(f.multiply(a, inv), 1);
    }
    assert_eq!(f.mod_inverse(0), None);
}

#[test]
fn field_divide() {
    let f = FiniteField::new(7);
    assert_eq!(f.divide(6, 3), Some(2));
    assert_eq!(f.divide(1, 3), Some(5));
    assert_eq!(f.divide(4, 0), None);
}

#[test]
fn polynomial_horner_evaluation() {
    let p = Polynomial::new(vec![1, 2, 3], FiniteField::new(2039));
    assert_eq!(p.evalute(2), 17);
    assert_eq!(p.evalute(0), 1);
    assert_eq!(p.evalute(100), (1 + 200 + 30000) % 2039);
}

#[test]
fn polynomial_empty_is_zero() {
    let p = Polynomial::new(vec![], FiniteField::new(2039));
    assert_eq!(p.evalute(5), 0);
}

#[test]
fn interpolation_recovers_constant_term() {
    let f = FiniteField::new(2039);
    // f(x) = 17 + 5x + 3x^2
    let points = vec![Share::new(1, 25, 2039), Share::new(2, 39, 2039), Share::new(3, 59, 2039)];
    assert_eq!(lagrange_interpolate(&f, &points, 0), Some(17));
    assert_eq!(lagrange_interpolate(&f, &points, 4), Some(17 + 20 + 48));
}

#[test]
fn interpolation_fails_on_repeated_position() {
    let f = FiniteField::new(2039);
    let points = vec![Share::new(1, 25, 2039), Share::new(1, 39, 2039)];
    assert_eq!(lagrange_interpolate(&f, &points, 0), None);
}

//! Tests of the field arithmetic over F_p, p = 2^61 - 1.

use rand::thread_rng;
use shamir_mpc::math::FieldError;
use shamir_mpc::math::mersenne61::{Mersenne61, MODULUS};

#[test]
fn zero() {
    let mut rng = thread_rng();
    let elem = Mersenne61::random(&mut rng);
    let s = elem.add(&Mersenne61::zero());
    assert_eq!(elem, s);

    let elem = Mersenne61::random(&mut rng);
    let s = elem.subtract(&Mersenne61::zero());
    assert_eq!(elem, s);
}

#[test]
fn one() {
    let mut rng = thread_rng();
    let elem = Mersenne61::random(&mut rng);
    let s = elem.multiply(&Mersenne61::one());
    assert_eq!(elem, s);
}

#[test]
fn negate() {
    let mut rng = thread_rng();
    let elem = Mersenne61::random(&mut rng);
    let s = elem.add(&elem.negate());
    assert_eq!(s, Mersenne61::zero());
}

#[test]
fn subract() {
    let mut rng = thread_rng();
    let elem = Mersenne61::random(&mut rng);
    let s = elem.subtract(&elem);
    assert_eq!(s, Mersenne61::zero());
}

#[test]
fn inverse() {
    let mut rng = thread_rng();
    const SAMPLES: usize = 100;
    for _ in 0..SAMPLES {
        let elem = Mersenne61::random(&mut rng);
        let s = elem.multiply(&elem.inverse().unwrap());
        assert_eq!(s, Mersenne61::one());
    }
}

#[test]
fn mult_test1() {
    let a = Mersenne61::from(2);
    let b = Mersenne61::from(6);
    let r = Mersenne61::from(12);

    let s = a.multiply(&b);
    assert_eq!(s, r);
}

#[test]
fn mult_conmutativity() {
    const SAMPLES: usize = 50;
    let mut rng = thread_rng();
    for _ in 0..SAMPLES {
        let a = Mersenne61::random(&mut rng);
        let b = Mersenne61::random(&mut rng);
        let mult1 = a.multiply(&b);
        let mult2 = b.multiply(&a);
        assert_eq!(mult1, mult2);
    }
}

#[test]
fn construction_reduces() {
    assert_eq!(Mersenne61::from(MODULUS), Mersenne61::zero());
    assert_eq!(Mersenne61::from(MODULUS + 5).to_u64(), 5);
    assert_eq!(Mersenne61::from(u64::MAX).to_u64(), 7);
}

#[test]
fn multiplication_folds_exactly() {
    // (2^60) * 2 = 2^61 = p + 1, so the product reduces to 1.
    let a = Mersenne61::from(1u64 << 60);
    let b = Mersenne61::from(2);
    assert_eq!(a.multiply(&b), Mersenne61::one());

    // (p - 1)^2 = p^2 - 2p + 1, which reduces to 1.
    let pm1 = Mersenne61::from(MODULUS - 1);
    assert_eq!(pm1.multiply(&pm1), Mersenne61::one());
}

#[test]
fn subtraction_wraps() {
    let a = Mersenne61::from(3);
    let b = Mersenne61::from(5);
    assert_eq!(a.subtract(&b).to_u64(), MODULUS - 2);
}

#[test]
fn inverse_of_zero_fails() {
    assert_eq!(Mersenne61::zero().inverse(), Err(FieldError::ZeroInverse));
}

#[test]
fn inverse_exact_value() {
    // 2 * (p + 1) / 2 = p + 1 = 1 (mod p), so 2^-1 = (p + 1) / 2 = 2^60.
    let two = Mersenne61::from(2);
    assert_eq!(two.inverse().unwrap().to_u64(), 1u64 << 60);
}

#[test]
fn distributivity_samples() {
    let mut rng = thread_rng();
    for _ in 0..50 {
        let a = Mersenne61::random(&mut rng);
        let b = Mersenne61::random(&mut rng);
        let c = Mersenne61::random(&mut rng);
        let left = a.multiply(&b.add(&c));
        let right = a.multiply(&b).add(&a.multiply(&c));
        assert_eq!(left, right);
        let assoc1 = a.multiply(&b).multiply(&c);
        let assoc2 = a.multiply(&b.multiply(&c));
        assert_eq!(assoc1, assoc2);
    }
}

use ec_cryptography::{FieldError, FiniteField, Natural};

fn n(v: u64) -> Natural {
    Natural::from_u64(v)
}

#[test]
fn test_add() {
    let c = n(4);
    let d = n(10);
    let p = n(11);
    let r = FiniteField::add(&c, &d, &p);
    assert_eq!(r, n(3));
}

#[test]
fn test_mult() {
    let c = n(4);
    let d = n(10);
    let p = n(11);
    let r = FiniteField::mult(&c, &d, &p);
    assert_eq!(r, n(7));
}

#[test]
fn test_mult2() {
    let c = n(4);
    let d = n(10);
    let p = n(51);
    let r = FiniteField::mult(&c, &d, &p);
    assert_eq!(r, n(40));
}

#[test]
fn test_inv_addition() {
    let c = n(4);
    let p = n(11);
    let r = FiniteField::inv_addition(&c, &p);
    assert_eq!(r, Ok(n(7)));
}

#[test]
fn test_inv_addition2() {
    let c = n(4);
    let p = n(51);
    let r = FiniteField::inv_addition(&c, &p);
    assert_eq!(r, Ok(n(47)));
}

#[test]
fn test_inv_addition3() {
    let c = n(11);
    let p = n(11);
    let r = FiniteField::inv_addition(&c, &p);
    assert_eq!(r, Err(FieldError::InvalidInput));
}

#[test]
fn test_inverse_multiplication() {
    let c = n(4);
    let p = n(11);
    let r = FiniteField::inverse_multiplication(&c, &p);
    assert_eq!(r, Ok(n(3)));
}

#[test]
fn test_inverse_multiplication2() {
    let c = n(4);
    let p = n(11);
    let r = FiniteField::inverse_multiplication(&c, &p);
    assert_eq!(r, Ok(n(3)));
}

#[test]
fn inv_addition_of_zero_is_zero() {
    assert_eq!(FiniteField::inv_addition(&n(0), &n(11)), Ok(n(0)));
}

#[test]
fn inv_addition_above_modulus_is_invalid() {
    assert_eq!(FiniteField::inv_addition(&n(12), &n(11)), Err(FieldError::InvalidInput));
}

#[test]
fn add_reduces_unreduced_operands() {
    assert_eq!(FiniteField::add(&n(25), &n(30), &n(11)), n(0));
}

#[test]
fn subtract_wraps_when_second_is_larger() {
    assert_eq!(FiniteField::subtract(&n(3), &n(5), &n(11)), n(9));
    assert_eq!(FiniteField::subtract(&n(5), &n(3), &n(11)), n(2));
    assert_eq!(FiniteField::subtract(&n(5), &n(0), &n(11)), n(5));
}

#[test]
fn inverse_addition_matches_subtract() {
    for c in 0..11u64 {
        for d in 0..11u64 {
            assert_eq!(
                FiniteField::inverse_addition(&n(c), &n(d), &n(11)),
                FiniteField::subtract(&n(c), &n(d), &n(11))
            );
        }
    }
}

#[test]
fn divide_multiplies_by_inverse() {
    // 3 / 4 = 3 * 3 = 9 (mod 11)
    assert_eq!(FiniteField::divide(&n(3), &n(4), &n(11)), Ok(n(9)));
}

#[test]
fn divide_by_zero_has_no_inverse() {
    assert_eq!(FiniteField::divide(&n(3), &n(0), &n(11)), Err(FieldError::NoInverse));
    assert_eq!(FiniteField::divide(&n(3), &n(22), &n(11)), Err(FieldError::NoInverse));
}

#[test]
fn inverse_of_zero_is_refused() {
    assert_eq!(FiniteField::inverse_multiplication(&n(0), &n(11)), Err(FieldError::NoInverse));
}

#[test]
fn additive_inverse_law_holds() {
    let p = n(11);
    for c in 0..11u64 {
        let neg = FiniteField::inv_addition(&n(c), &p).unwrap();
        assert_eq!(FiniteField::add(&n(c), &neg, &p), n(0));
    }
}

#[test]
fn multiplicative_inverse_law_holds() {
    for p in [2u64, 3, 11, 17, 101] {
        for c in 1..p {
            let inv = FiniteField::inverse_multiplication(&n(c), &n(p)).unwrap();
            assert_eq!(FiniteField::mult(&n(c), &inv, &n(p)), n(1));
        }
    }
}

#[test]
fn results_are_canonical() {
    let p = 13u64;
    for c in 0..30u64 {
        for d in 0..13u64 {
            let limit = n(p);
            for r in [
                FiniteField::add(&n(c), &n(d), &limit),
                FiniteField::mult(&n(c), &n(d), &limit),
                FiniteField::subtract(&n(c), &n(d), &limit),
            ] {
                assert!((0..p).any(|v| r == n(v)));
            }
        }
    }
}

#[test]
fn wide_operands_use_all_digits() {
    let p = n((1u64 << 61) - 1);
    let max = n(u64::MAX);
    assert_eq!(FiniteField::add(&max, &max, &p), n(14));
    let c = n((1u64 << 61) - 2);
    assert_eq!(FiniteField::mult(&c, &c, &p), n(1));
    assert_eq!(FiniteField::inverse_multiplication(&n(3), &p), Ok(n(1537228672809129301)));
}

#[test]
fn divide_then_multiply_restores_dividend() {
    let p = n(17);
    for c in 0..20u64 {
        for d in 1..17u64 {
            let q = FiniteField::divide(&n(c), &n(d), &p).unwrap();
            assert_eq!(FiniteField::mult(&q, &n(d), &p), n(c % 17));
        }
    }
}

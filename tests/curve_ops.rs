use ec_cryptography::{EllipticCurve, FiniteField, Natural, Point};

fn n(v: u64) -> Natural {
    Natural::from_u64(v)
}

fn pt(x: u64, y: u64) -> Point {
    Point::coordinate(n(x), n(y))
}

fn curve() -> EllipticCurve {
    EllipticCurve::new(n(2), n(2), n(17))
}

#[test]
fn test_ec_point_addition() {
    let a = n(2);
    let b = n(2);
    let p = n(17);
    let curve = EllipticCurve { a, b, p };

    let c = Point::Coordinate(n(6), n(3));
    let d = Point::Identity;

    let pr = c.clone();

    let res = curve.add(&c, &d);
    assert_eq!(res, pr);
}

#[test]
fn membership() {
    let e = curve();
    assert!(e.is_on_curve(&pt(6, 3)));
    assert!(e.is_on_curve(&pt(5, 1)));
    assert!(e.is_on_curve(&Point::identity()));
    assert!(!e.is_on_curve(&pt(6, 4)));
    assert!(!e.is_on_curve(&pt(0, 0)));
}

#[test]
fn identity_is_neutral_on_both_sides() {
    let e = curve();
    for q in [pt(5, 1), pt(6, 3), Point::identity()] {
        assert_eq!(e.add(&q, &Point::identity()), q);
        assert_eq!(e.add(&Point::identity(), &q), q);
    }
}

#[test]
fn point_plus_reflection_is_identity() {
    let e = curve();
    let p = n(17);
    for (x, y) in [(5u64, 1u64), (6, 3), (0, 6)] {
        let neg = FiniteField::inv_addition(&n(y), &p).unwrap();
        let reflected = Point::Coordinate(n(x), neg);
        assert_eq!(e.add(&pt(x, y), &reflected), Point::identity());
    }
}

#[test]
fn chord_addition() {
    let e = curve();
    assert_eq!(e.add(&pt(5, 1), &pt(6, 3)), pt(10, 6));
    assert_eq!(e.add(&pt(6, 3), &pt(5, 1)), pt(10, 6));
}

#[test]
fn doubling() {
    let e = curve();
    assert_eq!(e.double(&pt(5, 1)), pt(6, 3));
    assert_eq!(e.double(&pt(6, 3)), pt(3, 1));
    assert_eq!(e.double(&Point::identity()), Point::identity());
}

#[test]
fn adding_a_point_to_itself_doubles_it() {
    let e = curve();
    for q in [pt(5, 1), pt(6, 3), pt(9, 16)] {
        assert_eq!(e.add(&q, &q), e.double(&q));
    }
}

#[test]
fn doubling_a_point_of_order_two() {
    // y^2 = x^3 + 1 (mod 7) holds (6, 0), its own negation.
    let e = EllipticCurve::new(n(0), n(1), n(7));
    assert!(e.is_on_curve(&pt(6, 0)));
    assert_eq!(e.double(&pt(6, 0)), Point::identity());
}

#[test]
fn scalar_small_multiples() {
    let e = curve();
    let g = pt(5, 1);
    assert_eq!(e.scalar_mul(&g, n(0)), Point::identity());
    assert_eq!(e.scalar_mul(&g, n(1)), g);
    assert_eq!(e.scalar_mul(&g, n(2)), e.double(&g));
}

#[test]
fn scalar_multiples_of_generator() {
    let e = curve();
    let g = pt(5, 1);
    let expected = [
        None,
        Some((5, 1)),
        Some((6, 3)),
        Some((10, 6)),
        Some((3, 1)),
        Some((9, 16)),
        Some((16, 13)),
        Some((0, 6)),
        Some((13, 7)),
        Some((7, 6)),
        Some((7, 11)),
        Some((13, 10)),
        Some((0, 11)),
        Some((16, 4)),
        Some((9, 1)),
        Some((3, 16)),
        Some((10, 11)),
        Some((6, 14)),
        Some((5, 16)),
        None,
        Some((5, 1)),
    ];
    for (k, want) in expected.iter().enumerate() {
        let got = e.scalar_mul(&g, n(k as u64));
        let want = match want {
            Some((x, y)) => pt(*x, *y),
            None => Point::identity(),
        };
        assert_eq!(got, want);
        assert!(e.is_on_curve(&got));
    }
}

#[test]
fn scalar_of_identity_is_identity() {
    let e = curve();
    assert_eq!(e.scalar_mul(&Point::identity(), n(12345)), Point::identity());
}

fn secp256k1() -> EllipticCurve {
    let p = Natural::from_u32_digits(vec![
        4294966319, 4294967294, 4294967295, 4294967295, 4294967295, 4294967295, 4294967295,
        4294967295,
    ]);
    EllipticCurve::new(n(0), n(7), p)
}

fn secp256k1_generator() -> Point {
    let x = Natural::from_u32_digits(vec![
        385357720, 1509065051, 768485593, 43777243, 3464956679, 1436574357, 4191992748,
        2042521214,
    ]);
    let y = Natural::from_u32_digits(vec![
        4212184248, 2621952143, 2793755673, 4246189128, 235997352, 1571093500, 648266853,
        1211816567,
    ]);
    Point::coordinate(x, y)
}

#[test]
fn wide_curve_generator_is_on_curve() {
    let e = secp256k1();
    let g = secp256k1_generator();
    assert!(e.is_on_curve(&g));
}

#[test]
fn wide_curve_doubling() {
    let e = secp256k1();
    let g = secp256k1_generator();
    let x = Natural::from_u32_digits(vec![
        1550884581, 2880178617, 2364488871, 1551339083, 2512420056, 809844846, 1106083181,
        3322183572,
    ]);
    let y = Natural::from_u32_digits(vec![
        1355801898, 593768873, 845598945, 4160107109, 1181543150, 2747630617, 2789065529,
        450980094,
    ]);
    let doubled = e.double(&g);
    assert_eq!(doubled, Point::coordinate(x, y));
    assert!(e.is_on_curve(&doubled));
}

#[test]
fn wide_curve_group_order_annihilates_generator() {
    let e = secp256k1();
    let g = secp256k1_generator();
    let order = Natural::from_u32_digits(vec![
        3493216577, 3218235020, 2940772411, 3132021990, 4294967294, 4294967295, 4294967295,
        4294967295,
    ]);
    assert_eq!(e.scalar_mul(&g, order), Point::identity());
}

#[test]
fn digits_round_trip_without_high_zeros() {
    let v = Natural::from_u32_digits(vec![5, 0, 0]);
    assert_eq!(v, n(5));
    assert_eq!(v.to_u32_digits(), vec![5]);
    assert_eq!(n(0).to_u32_digits(), Vec::<u32>::new());
    assert_eq!(n(1u64 << 32).to_u32_digits(), vec![0, 1]);
}

#[test]
fn identity_law_keeps_unreduced_points() {
    let e = curve();
    let q = pt(23, 3);
    assert!(e.is_on_curve(&q));
    assert_eq!(e.add(&q, &Point::identity()), q);
    assert_eq!(e.add(&Point::identity(), &q), q);
}

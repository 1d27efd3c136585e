use ecc_field::curve::{ec_add, ec_point_order, ec_scalar_mult, Point};
use ecc_field::enumerate::{curve_rhs, get_curve, MAX_ENUMERATION_MODULUS};
use ecc_field::error::EcError;
use ecc_field::field::power;
use ecc_field::sampling::{get_ec_coeffs, get_ec_point, is_nonsingular, point_at};

fn brute_force_curve(a: u128, b: u128, p: u128) -> Vec<Point> {
    let mut out = Vec::new();
    for x in 0..p {
        for y in 0..p {
            if y * y % p == (x * x * x + a * x + b) % p {
                out.push(Point::Affine(x, y));
            }
        }
    }
    out
}

#[test]
fn elliptic_curve_addition_test() {
    let tup1 = Point::Affine(9, 7);
    let tup2 = Point::Affine(2, 10);
    let tup3 = Point::Affine(17, 11);
    let tup4 = Point::Affine(39, 24);

    assert_eq!(ec_add(&tup1, &tup2, 3, 13), Point::Affine(12, 11));
    assert_eq!(ec_add(&tup3, &tup4, 17, 41), Point::Affine(10, 36));
}

#[test]
fn elliptic_curve_scalar_multiplication_test() {
    let point = Point::Affine(2, 10);
    assert_eq!(ec_scalar_mult(5, &point, 3, 13), Point::Affine(1, 5));
}

#[test]
fn elliptic_curve_coefficients_test() {
    let coeffs = get_ec_coeffs(13).unwrap();
    let term = 4 * power(coeffs.0, 3, 13) + 27 * power(coeffs.1, 2, 13);
    assert_eq!(term % 13 == 0, false);
}

#[test]
fn elliptic_curve_point_test() {
    let curve_coeffs = get_ec_coeffs(13).unwrap();
    let point = get_ec_point(&curve_coeffs, 13).unwrap();
    let lhs = power(point.1, 2, 13);
    let rhs = power(point.0, 3, 13) + curve_coeffs.0 * point.0 + curve_coeffs.1;
    assert_eq!(lhs, rhs % 13);
}

#[test]
fn elliptic_curve_point_order_test() {
    let p: u128 = 41;
    let curve_coeffs = get_ec_coeffs(p).unwrap();
    let point = get_ec_point(&curve_coeffs, p).unwrap();
    let point = Point::Affine(point.0, point.1);
    let order = ec_point_order(&point, curve_coeffs.0, p).unwrap();
    assert_eq!(ec_scalar_mult(order, &point, curve_coeffs.0, p), Point::Infinity);
}

#[test]
fn identity_is_neutral() {
    let pt = Point::Affine(9, 7);
    assert_eq!(ec_add(&Point::Infinity, &pt, 3, 13), pt);
    assert_eq!(ec_add(&pt, &Point::Infinity, 3, 13), pt);
    assert_eq!(ec_add(&Point::Infinity, &Point::Infinity, 3, 13), Point::Infinity);
}

#[test]
fn point_plus_negation_is_identity() {
    assert_eq!(ec_add(&Point::Affine(9, 7), &Point::Affine(9, 6), 3, 13), Point::Infinity);
}

#[test]
fn doubling_a_point() {
    // on y^2 = x^3 + 3x + 8 over F_13: 2 * (9, 7) = (9, 6) + ... computed by the tangent rule
    let d = ec_add(&Point::Affine(9, 7), &Point::Affine(9, 7), 3, 13);
    // slope = (3 * 81 + 3) / 14 = 246 / 1 = 246 = 12 (mod 13)
    // x3 = 144 - 18 = 126 = 9, y3 = 12 * (9 - 9) - 7 = -7 = 6
    assert_eq!(d, Point::Affine(9, 6));
}

#[test]
fn addition_is_commutative_on_a_small_curve() {
    let points = get_curve(3, 8, 13).unwrap();
    for pt in points.iter() {
        for qt in points.iter() {
            assert_eq!(ec_add(pt, qt, 3, 13), ec_add(qt, pt, 3, 13));
        }
    }
}

#[test]
fn scalar_zero_is_identity() {
    assert_eq!(ec_scalar_mult(0, &Point::Affine(2, 10), 3, 13), Point::Infinity);
    assert_eq!(ec_scalar_mult(1, &Point::Affine(2, 10), 3, 13), Point::Affine(2, 10));
}

#[test]
fn point_order_is_least_annihilating_scalar() {
    let (a, b, p) = (3u128, 8u128, 13u128);
    for pt in get_curve(a, b, p).unwrap().iter() {
        let n = ec_point_order(pt, a, p).unwrap();
        assert!(n >= 1);
        assert_eq!(ec_scalar_mult(n, pt, a, p), Point::Infinity);
        for k in 1..n {
            assert_ne!(ec_scalar_mult(k, pt, a, p), Point::Infinity);
        }
    }
}

#[test]
fn point_order_of_identity_is_one() {
    assert_eq!(ec_point_order(&Point::Infinity, 3, 13), Some(1));
}

#[test]
fn curve_listing_matches_brute_force() {
    for &(a, b, p) in [(3u128, 8u128, 13u128), (17, 5, 41), (2, 3, 97), (0, 7, 11)].iter() {
        assert_eq!(get_curve(a, b, p).unwrap(), brute_force_curve(a, b, p));
    }
}

#[test]
fn curve_listing_small_example() {
    let pts = get_curve(3, 8, 13).unwrap();
    assert_eq!(
        pts,
        vec![
            Point::Affine(1, 5),
            Point::Affine(1, 8),
            Point::Affine(2, 3),
            Point::Affine(2, 10),
            Point::Affine(9, 6),
            Point::Affine(9, 7),
            Point::Affine(12, 2),
            Point::Affine(12, 11),
        ]
    );
}

#[test]
fn curve_points_satisfy_equation() {
    let (a, b, p) = (17u128, 5u128, 41u128);
    for pt in get_curve(a, b, p).unwrap() {
        match pt {
            Point::Affine(x, y) => assert_eq!(y * y % p, curve_rhs(x, a, b, p)),
            Point::Infinity => panic!("identity in the listing"),
        }
    }
}

#[test]
fn curve_listing_refuses_large_modulus() {
    assert_eq!(get_curve(1, 1, MAX_ENUMERATION_MODULUS + 1), Err(EcError::ResourceExceeded));
    assert_eq!(get_curve(1, 1, 65537), Err(EcError::ResourceExceeded));
}

#[test]
fn curve_rhs_value() {
    // 9^3 + 3 * 9 + 8 = 764 = 10 (mod 13)
    assert_eq!(curve_rhs(9, 3, 8, 13), 10);
}

#[test]
fn nonsingular_test() {
    // 4 * 0 + 27 * 0 = 0
    assert!(!is_nonsingular(0, 0, 13));
    // 4 * 27 + 27 * 64 = 1836 = 3 (mod 13)
    assert!(is_nonsingular(3, 8, 13));
    // 4 * 1 + 27 * 1 = 31 = 0 (mod 31)
    assert!(!is_nonsingular(1, 1, 31));
}

#[test]
fn coefficients_are_nonsingular_across_trials() {
    for _ in 0..200 {
        let (a, b) = get_ec_coeffs(13).unwrap();
        assert!(a < 13 && b < 13);
        assert_ne!((4 * a * a * a + 27 * b * b) % 13, 0);
    }
}

#[test]
fn sampled_points_lie_on_curve() {
    for &p in [13u128, 41, 97, 1_000_000_007].iter() {
        for _ in 0..20 {
            let (a, b) = get_ec_coeffs(p).unwrap();
            let (x, y) = get_ec_point(&(a, b), p).unwrap();
            assert!(x < p && y < p && y != 0);
            assert_eq!(power(y, 2, p), curve_rhs(x, a, b, p));
        }
    }
}

#[test]
fn addition_is_associative_on_a_small_curve() {
    let (a, b, p) = (2u128, 3u128, 97u128);
    let mut points = get_curve(a, b, p).unwrap();
    points.push(Point::Infinity);
    for pt in points.iter().step_by(7) {
        for qt in points.iter().step_by(5) {
            for rt in points.iter().step_by(3) {
                let left = ec_add(&ec_add(pt, qt, a, p), rt, a, p);
                let right = ec_add(pt, &ec_add(qt, rt, a, p), a, p);
                assert_eq!(left, right);
            }
        }
    }
}

#[test]
fn point_sampling_gives_up_on_a_curve_without_usable_points() {
    // over F_3, x^3 = x, so x^3 + 2x + 2 = 2 for every x, and 2 is not a square mod 3
    assert_eq!(get_ec_point(&(2, 2), 3), Err(EcError::SamplingExhausted));
    assert!(get_curve(2, 2, 3).unwrap().is_empty());
}

#[test]
fn point_at_closed_form_root() {
    // y^2 = x^3 + 7 over F_11: x = 2 gives 15 = 4, whose root by 4^((11 + 1) / 4) is 9
    assert_eq!(point_at(2, 0, 7, 11), Ok(Some(9)));
}

#[test]
fn point_at_rejects_non_squares_and_zero() {
    // x = 1 gives 8, not a square mod 11; x = 5 gives 132 = 0
    assert_eq!(point_at(1, 0, 7, 11), Ok(None));
    assert_eq!(point_at(5, 0, 7, 11), Ok(None));
}

#[test]
fn point_at_tonelli_shanks_root() {
    // y^2 = x^3 + 3x + 8 over F_13: x = 9 gives 10 = 6^2 = 7^2
    let y = point_at(9, 3, 8, 13).unwrap().unwrap();
    assert!(y == 6 || y == 7);
    // x = 0 gives 8, not a square mod 13
    assert_eq!(point_at(0, 3, 8, 13), Ok(None));
}

#[test]
fn point_at_composite_modulus_without_root() {
    // modulo 9, 3 passes Euler's criterion with value 0 yet has no root
    assert_eq!(point_at(0, 0, 3, 9), Err(EcError::NonResidue));
    assert_eq!(point_at(3, 0, 0, 9), Ok(None));
}

use ecc::error::EccError;
use ecc::field::FieldElement;
use ecc::point::Point;

fn fe(value: i32, modulus: i32) -> FieldElement {
    FieldElement::new(value, modulus).unwrap()
}

/// The point `(x, y)` of `y^2 = x^3 + a*x + b` modulo `m`.
fn pt(x: i32, y: i32, a: i32, b: i32, m: i32) -> Point {
    Point::new(Some(fe(x, m)), Some(fe(y, m)), fe(a, m), fe(b, m)).unwrap()
}

/// The point at infinity of `y^2 = x^3 + a*x + b` modulo `m`.
fn inf(a: i32, b: i32, m: i32) -> Point {
    Point::new(None, None, fe(a, m), fe(b, m)).unwrap()
}

/// Every point of `y^2 = x^3 + a*x + b` modulo `m`, the one at infinity first.
fn all_points(a: i32, b: i32, m: i32) -> Vec<Point> {
    let mut points = vec![inf(a, b, m)];
    for x in 0..m {
        for y in 0..m {
            if let Ok(p) = Point::new(Some(fe(x, m)), Some(fe(y, m)), fe(a, m), fe(b, m)) {
                points.push(p);
            }
        }
    }
    points
}

fn coords(p: &Point) -> Option<(i32, i32)> {
    match (p.x(), p.y()) {
        (Some(x), Some(y)) => Some((x.value(), y.value())),
        _ => None,
    }
}

#[test]
fn test_point_new_valid() {
    // (2, 3) lies on y^2 = x^3 + 4x + 3 modulo 5; 5 itself is no residue
    // modulo 5, so it cannot be a coefficient
    let x = FieldElement::new(2, 5).unwrap();
    let y = FieldElement::new(3, 5).unwrap();
    let a = FieldElement::new(4, 5).unwrap();
    assert_eq!(FieldElement::new(5, 5), Err(EccError::InvalidElement));
    let b = FieldElement::new(3, 5).unwrap();
    let point = Point::new(Some(x), Some(y), a, b);
    assert!(point.is_ok());
}

#[test]
fn test_point_new_invalid() {
    // 6 is no residue modulo 5; reduced, it is 1, and (2, 3) does not lie on
    // y^2 = x^3 + 4x + 1
    let x = FieldElement::new(2, 5).unwrap();
    let y = FieldElement::new(3, 5).unwrap();
    let a = FieldElement::new(4, 5).unwrap();
    assert_eq!(FieldElement::new(6, 5), Err(EccError::InvalidElement));
    let b = FieldElement::new(1, 5).unwrap();
    let point = Point::new(Some(x), Some(y), a, b);
    assert!(point.is_err());
}

#[test]
fn test_point_add() {
    let a = FieldElement::new(2, 5).unwrap();
    let b = FieldElement::new(3, 5).unwrap();
    let x1 = FieldElement::new(1, 5).unwrap();
    let y1 = FieldElement::new(1, 5).unwrap();
    let x2 = FieldElement::new(2, 5).unwrap();
    let y2 = FieldElement::new(4, 5).unwrap();
    let p1 = Point::new(Some(x1), Some(y1), a.clone(), b.clone()).unwrap();
    // (2, 4) is not on the curve; the point of abscissa 2 is (2, 0)
    assert_eq!(Point::new(Some(x2), Some(y2), a.clone(), b.clone()), Err(EccError::NotOnCurve));
    let y2 = FieldElement::new(0, 5).unwrap();
    let p2 = Point::new(Some(x2), Some(y2), a.clone(), b.clone()).unwrap();
    let sum = p1.add(&p2);
    assert!(sum.is_ok());
    let result = sum.unwrap();
    assert_eq!(result.x().unwrap().value(), 3);
    assert_eq!(result.y().unwrap().value(), 1);
}

#[test]
fn test_point_rmul() {
    let a = FieldElement::new(2, 5).unwrap();
    let b = FieldElement::new(3, 5).unwrap();
    let x = FieldElement::new(1, 5).unwrap();
    let y = FieldElement::new(1, 5).unwrap();
    let p = Point::new(Some(x), Some(y), a.clone(), b.clone()).unwrap();
    // three times (1, 1) is (2, 0); four times it is (3, 1)
    let scalar = 3;
    let result = p.rmul(scalar);
    assert!(result.is_ok());
    let result_point = result.unwrap();
    assert_eq!(result_point.x().unwrap().value(), 2);
    assert_eq!(result_point.y().unwrap().value(), 0);
    let result_point = p.rmul(4).unwrap();
    assert_eq!(result_point.x().unwrap().value(), 3);
    assert_eq!(result_point.y().unwrap().value(), 1);
}

#[test]
fn membership_is_checked() {
    let a = fe(2, 5);
    let b = fe(3, 5);
    assert!(Point::new(Some(fe(1, 5)), Some(fe(1, 5)), a, b).is_ok());
    assert_eq!(Point::new(Some(fe(1, 5)), Some(fe(2, 5)), a, b), Err(EccError::NotOnCurve));
    for x in 0..5 {
        for y in 0..5 {
            let on = (y * y) % 5 == (x * x * x + 2 * x + 3) % 5;
            let p = Point::new(Some(fe(x, 5)), Some(fe(y, 5)), a, b);
            assert_eq!(p.is_ok(), on);
            if !on {
                assert_eq!(p, Err(EccError::NotOnCurve));
            }
        }
    }
}

#[test]
fn a_point_keeps_what_it_was_built_from() {
    let p = pt(1, 1, 2, 3, 5);
    assert_eq!(p.x(), Some(fe(1, 5)));
    assert_eq!(p.y(), Some(fe(1, 5)));
    assert_eq!(p.a(), fe(2, 5));
    assert_eq!(p.b(), fe(3, 5));
    assert!(!p.is_infinity());
}

#[test]
fn an_absent_coordinate_gives_the_point_at_infinity() {
    let a = fe(2, 5);
    let b = fe(3, 5);
    let o = Point::new(None, None, a, b).unwrap();
    assert!(o.is_infinity());
    assert_eq!(o.x(), None);
    assert_eq!(o.y(), None);
    assert_eq!(o.a(), a);
    assert_eq!(o.b(), b);
    // nothing is checked of the coordinate that is present
    assert_eq!(Point::new(Some(fe(1, 5)), None, a, b), Ok(o));
    assert_eq!(Point::new(None, Some(fe(2, 5)), a, b), Ok(o));
    assert_eq!(Point::new(Some(fe(1, 7)), None, a, b), Ok(o));
}

#[test]
fn coordinates_of_another_field_are_rejected() {
    let a = fe(2, 5);
    let b = fe(3, 5);
    assert_eq!(Point::new(Some(fe(1, 7)), Some(fe(1, 7)), a, b), Err(EccError::FieldMismatch));
    assert_eq!(Point::new(Some(fe(1, 5)), Some(fe(1, 5)), a, fe(3, 7)), Err(EccError::FieldMismatch));
    assert_eq!(Point::new(Some(fe(1, 5)), Some(fe(1, 5)), fe(2, 7), b), Err(EccError::FieldMismatch));
    assert_eq!(Point::new(Some(fe(1, 5)), Some(fe(1, 7)), a, b), Err(EccError::NotOnCurve));
}

#[test]
fn points_of_different_curves_cannot_be_added() {
    let p = pt(1, 1, 2, 3, 5);
    let q = pt(2, 3, 4, 3, 5);
    assert_eq!(p.add(&q), Err(EccError::DifferentCurve));
    assert_eq!(p.add(&inf(2, 4, 5)), Err(EccError::DifferentCurve));
    assert_eq!(inf(2, 3, 5).add(&inf(2, 3, 7)), Err(EccError::DifferentCurve));
}

#[test]
fn infinity_is_the_identity() {
    for (a, b, m) in [(2, 3, 5), (1, 1, 5), (1, 6, 11), (0, 7, 223)] {
        let o = inf(a, b, m);
        for p in all_points(a, b, m) {
            assert_eq!(p.add(&o), Ok(p));
            assert_eq!(o.add(&p), Ok(p));
        }
    }
}

#[test]
fn a_point_and_its_reflection_cancel() {
    for (a, b, m) in [(2, 3, 5), (1, 1, 5), (1, 6, 11), (2, 3, 9), (0, 7, 223)] {
        for p in all_points(a, b, m) {
            if let Some((x, y)) = coords(&p) {
                let minus_y = FieldElement::zero(m).sub(&fe(y, m)).unwrap();
                let q = Point::new(Some(fe(x, m)), Some(minus_y), fe(a, m), fe(b, m)).unwrap();
                assert_eq!(p.add(&q), Ok(inf(a, b, m)));
            }
        }
    }
}

#[test]
fn doubling_where_the_tangent_is_vertical() {
    let p = pt(2, 0, 2, 3, 5);
    assert_eq!(p.add(&p), Ok(inf(2, 3, 5)));
}

#[test]
fn doubling_a_point_whose_ordinate_is_half_the_modulus() {
    // modulo 2, -1 is 1: (0, 1) is its own reflection, and 2 * 1 is zero
    let p = pt(0, 1, 0, 1, 2);
    assert_eq!(p.add(&p), Err(EccError::DivisionByZero));
    let q = pt(0, 3, 0, 3, 6);
    assert_eq!(q.add(&q), Err(EccError::DivisionByZero));
}

#[test]
fn a_slope_without_reciprocal() {
    // modulo 9 the abscissas of (0, 1) and (3, 1) differ by 3
    let p = pt(0, 1, 0, 1, 9);
    let q = pt(3, 1, 0, 1, 9);
    assert_eq!(p.add(&q), Err(EccError::NoInverse));
}

#[test]
fn sums_on_a_curve_modulo_223() {
    let p = pt(192, 105, 0, 7, 223);
    let q = pt(17, 56, 0, 7, 223);
    assert_eq!(p.add(&q), Ok(pt(170, 142, 0, 7, 223)));
    assert_eq!(pt(170, 142, 0, 7, 223).add(&pt(60, 139, 0, 7, 223)), Ok(pt(220, 181, 0, 7, 223)));
    assert_eq!(pt(47, 71, 0, 7, 223).add(&pt(17, 56, 0, 7, 223)), Ok(pt(215, 68, 0, 7, 223)));
    assert_eq!(p.add(&p), Ok(pt(49, 71, 0, 7, 223)));
}

#[test]
fn doubling_and_chord_on_the_small_curve() {
    let p = pt(1, 1, 2, 3, 5);
    assert_eq!(p.add(&p), Ok(pt(3, 4, 2, 3, 5)));
    assert_eq!(pt(3, 4, 2, 3, 5).add(&p), Ok(pt(2, 0, 2, 3, 5)));
}

#[test]
fn sums_lie_on_the_curve() {
    for (a, b, m) in [(1, 1, 5), (1, 6, 11), (2, 3, 9), (1, 1, 15)] {
        let points = all_points(a, b, m);
        for p in &points {
            for q in &points {
                if let Ok(r) = p.add(q) {
                    assert!(points.contains(&r));
                    assert_eq!(r.a(), fe(a, m));
                    assert_eq!(r.b(), fe(b, m));
                }
            }
        }
    }
}

#[test]
fn addition_is_defined_modulo_an_odd_prime() {
    for (a, b, m) in [(2, 3, 5), (1, 1, 5), (1, 6, 11), (0, 7, 13)] {
        let points = all_points(a, b, m);
        for p in &points {
            for q in &points {
                assert!(p.add(q).is_ok());
            }
        }
    }
}

#[test]
fn addition_is_associative() {
    for (a, b, m) in [(1, 1, 5), (1, 6, 11), (0, 7, 13)] {
        let points = all_points(a, b, m);
        for p in &points {
            for q in &points {
                for r in &points {
                    let left = p.add(q).unwrap().add(r);
                    let right = p.add(&q.add(r).unwrap());
                    assert_eq!(left, right);
                }
            }
        }
    }
}

#[test]
fn addition_is_commutative() {
    for (a, b, m) in [(2, 3, 5), (1, 1, 5), (1, 6, 11), (2, 3, 9)] {
        let points = all_points(a, b, m);
        for p in &points {
            for q in &points {
                assert_eq!(p.add(q), q.add(p));
            }
        }
    }
}

#[test]
fn zero_times_a_point_is_infinity() {
    for (a, b, m) in [(2, 3, 5), (1, 6, 11), (2, 3, 9), (0, 1, 2)] {
        for p in all_points(a, b, m) {
            assert_eq!(p.rmul(0), Ok(inf(a, b, m)));
        }
    }
}

#[test]
fn twice_a_point_is_the_point_added_to_itself() {
    let p = pt(1, 1, 2, 3, 5);
    assert_eq!(p.rmul(2), p.add(&p));
    assert_eq!(p.rmul(1), Ok(p));
    for (a, b, m) in [(1, 1, 5), (1, 6, 11), (0, 7, 223)] {
        for p in all_points(a, b, m) {
            assert_eq!(p.rmul(1), Ok(p));
            assert_eq!(p.rmul(2), p.add(&p));
        }
    }
}

#[test]
fn multiples_agree_with_repeated_addition() {
    for (a, b, m) in [(1, 1, 5), (1, 6, 11), (0, 7, 13)] {
        for p in all_points(a, b, m) {
            let mut sum = inf(a, b, m);
            for k in 0..40 {
                assert_eq!(p.rmul(k), Ok(sum));
                sum = sum.add(&p).unwrap();
            }
        }
    }
    // the multiples of (1, 1), a point of order six
    let p = pt(1, 1, 2, 3, 5);
    let expected = [None, Some((1, 1)), Some((3, 4)), Some((2, 0)), Some((3, 1)), Some((1, 4)), None];
    for (k, e) in expected.iter().enumerate() {
        assert_eq!(coords(&p.rmul(k).unwrap()), *e);
    }
}

#[test]
fn multiples_on_a_curve_modulo_223() {
    let p = pt(47, 71, 0, 7, 223);
    assert_eq!(p.rmul(2), Ok(pt(36, 111, 0, 7, 223)));
    assert_eq!(p.rmul(4), Ok(pt(194, 51, 0, 7, 223)));
    assert_eq!(p.rmul(8), Ok(pt(116, 55, 0, 7, 223)));
    assert_eq!(p.rmul(21), Ok(inf(0, 7, 223)));
    assert_eq!(pt(15, 86, 0, 7, 223).rmul(7), Ok(inf(0, 7, 223)));
    assert_eq!(p.rmul(usize::MAX), p.rmul(usize::MAX % 21));
}

#[test]
fn a_multiple_fails_where_a_sum_does() {
    let p = pt(0, 1, 0, 1, 2);
    assert_eq!(p.rmul(0), Ok(inf(0, 1, 2)));
    assert_eq!(p.rmul(1), Err(EccError::DivisionByZero));
    assert_eq!(p.rmul(2), Err(EccError::DivisionByZero));
}

#[test]
fn the_main_items_are_at_the_root() {
    let x = ecc::FieldElement::new(3, 11).unwrap();
    assert_eq!(ecc::mod_inverse(x.value(), x.modulus()), Some(4));
    let o = ecc::Point::new(None, None, x, x).unwrap();
    assert_eq!(o.add(&o), Ok(o));
    assert_eq!(x.pow(-1), Err(ecc::EccError::NegativeExponent));
}

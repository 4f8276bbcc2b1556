use ecc::error::EccError;
use ecc::field::{mod_inverse, FieldElement};

fn fe(value: i32, modulus: i32) -> FieldElement {
    FieldElement::new(value, modulus).unwrap()
}

#[test]
fn test_new_valid() {
    let field_element = FieldElement::new(5, 10);
    assert!(field_element.is_ok());
}

#[test]
fn test_add_valid() {
    let field_element1 = FieldElement::new(5, 10).unwrap();
    let field_element2 = FieldElement::new(7, 10).unwrap();
    let result = field_element1.add(&field_element2);
    assert!(result.is_ok());
}

#[test]
fn test_sub_valid() {
    let field_element1 = FieldElement::new(7, 10).unwrap();
    let field_element2 = FieldElement::new(5, 10).unwrap();
    let result = field_element1.sub(&field_element2);
    assert!(result.is_ok());
}

#[test]
fn test_mul_valid() {
    let field_element1 = FieldElement::new(5, 10).unwrap();
    let field_element2 = FieldElement::new(7, 10).unwrap();
    let result = field_element1.mul(&field_element2);
    assert!(result.is_ok());
}

#[test]
fn test_pow_valid() {
    let field_element = FieldElement::new(5, 10).unwrap();
    let result = field_element.pow(3);
    assert!(result.is_ok());
}

#[test]
fn test_rmul_valid() {
    let field_element = FieldElement::new(5, 10).unwrap();
    let result = field_element.rmul(3);
    assert!(result.is_ok());
}

#[test]
fn new_keeps_value_and_modulus() {
    let e = fe(5, 10);
    assert_eq!(e.value(), 5);
    assert_eq!(e.modulus(), 10);
    assert_eq!(fe(0, 1).value(), 0);
}

#[test]
fn new_rejects_what_is_not_a_residue() {
    assert_eq!(FieldElement::new(5, 5), Err(EccError::InvalidElement));
    assert_eq!(FieldElement::new(6, 5), Err(EccError::InvalidElement));
    assert_eq!(FieldElement::new(-1, 5), Err(EccError::InvalidElement));
    assert_eq!(FieldElement::new(0, 0), Err(EccError::InvalidElement));
    assert_eq!(FieldElement::new(0, -3), Err(EccError::InvalidElement));
    assert_eq!(FieldElement::new(1, 1), Err(EccError::InvalidElement));
}

#[test]
fn zero_is_the_zero_of_its_field() {
    assert_eq!(FieldElement::zero(7), fe(0, 7));
}

#[test]
fn sums_differences_and_products() {
    assert_eq!(fe(5, 10).add(&fe(7, 10)), Ok(fe(2, 10)));
    assert_eq!(fe(7, 10).sub(&fe(5, 10)), Ok(fe(2, 10)));
    assert_eq!(fe(5, 10).sub(&fe(7, 10)), Ok(fe(8, 10)));
    assert_eq!(fe(5, 10).mul(&fe(7, 10)), Ok(fe(5, 10)));
    assert_eq!(fe(3, 13).mul(&fe(12, 13)), Ok(fe(10, 13)));
}

#[test]
fn products_of_large_residues_do_not_overflow() {
    let m = i32::MAX;
    let x = fe(m - 1, m);
    assert_eq!(x.mul(&x), Ok(fe(1, m)));
    assert_eq!(x.add(&x), Ok(fe(m - 2, m)));
    assert_eq!(x.pow(2), Ok(fe(1, m)));
    assert_eq!(x.rmul(i32::MIN), Ok(fe(1, m)));
}

#[test]
fn powers() {
    assert_eq!(fe(5, 10).pow(3), Ok(fe(5, 10)));
    assert_eq!(fe(3, 13).pow(3), Ok(fe(1, 13)));
    assert_eq!(fe(2, 13).pow(0), Ok(fe(1, 13)));
    assert_eq!(fe(0, 13).pow(0), Ok(fe(1, 13)));
    assert_eq!(fe(0, 1).pow(0), Ok(fe(0, 1)));
    assert_eq!(fe(2, 1_000_003).pow(1_000_002), Ok(fe(1, 1_000_003)));
    assert_eq!(fe(7, 19).pow(i32::MAX), Ok(fe(7, 19)));
}

#[test]
fn negative_exponent_is_rejected() {
    assert_eq!(fe(5, 10).pow(-1), Err(EccError::NegativeExponent));
}

#[test]
fn multiples() {
    assert_eq!(fe(5, 10).rmul(3), Ok(fe(5, 10)));
    assert_eq!(fe(4, 7).rmul(2), Ok(fe(1, 7)));
    assert_eq!(fe(4, 7).rmul(0), Ok(fe(0, 7)));
    assert_eq!(fe(4, 7).rmul(-1), Ok(fe(3, 7)));
    assert_eq!(fe(4, 7).rmul(-7), Ok(fe(0, 7)));
}

#[test]
fn quotients() {
    assert_eq!(fe(2, 19).truediv(&fe(7, 19)), Ok(fe(3, 19)));
    assert_eq!(fe(7, 19).truediv(&fe(5, 19)), Ok(fe(9, 19)));
    assert_eq!(fe(7, 10).truediv(&fe(3, 10)), Ok(fe(9, 10)));
}

#[test]
fn division_by_zero_fails_for_every_dividend() {
    for m in 1..12 {
        for v in 0..m {
            assert_eq!(fe(v, m).truediv(&fe(0, m)), Err(EccError::DivisionByZero));
        }
    }
}

#[test]
fn division_without_reciprocal_fails() {
    assert_eq!(fe(7, 10).truediv(&fe(5, 10)), Err(EccError::NoInverse));
    assert_eq!(fe(1, 10).truediv(&fe(4, 10)), Err(EccError::NoInverse));
}

#[test]
fn operations_across_fields_fail() {
    let x = fe(3, 7);
    let y = fe(3, 11);
    assert_eq!(x.add(&y), Err(EccError::FieldMismatch));
    assert_eq!(x.sub(&y), Err(EccError::FieldMismatch));
    assert_eq!(x.mul(&y), Err(EccError::FieldMismatch));
    assert_eq!(x.truediv(&y), Err(EccError::FieldMismatch));
    assert_eq!(x.truediv(&fe(0, 11)), Err(EccError::FieldMismatch));
}

#[test]
fn results_stay_in_the_field() {
    for m in 1..15 {
        for v in 0..m {
            for w in 0..m {
                for r in [fe(v, m).add(&fe(w, m)), fe(v, m).sub(&fe(w, m)), fe(v, m).mul(&fe(w, m))] {
                    let r = r.unwrap();
                    assert_eq!(r.modulus(), m);
                    assert!(0 <= r.value() && r.value() < m);
                }
            }
        }
    }
}

#[test]
fn zero_is_the_additive_identity() {
    for m in 1..15 {
        for v in 0..m {
            assert_eq!(fe(v, m).add(&FieldElement::zero(m)), Ok(fe(v, m)));
            assert_eq!(fe(v, m).sub(&fe(v, m)), Ok(FieldElement::zero(m)));
        }
    }
}

#[test]
fn division_undoes_multiplication_in_a_field() {
    for m in [2, 3, 5, 7, 11, 13, 97] {
        for v in 1..m {
            let x = fe(v, m);
            assert_eq!(x.truediv(&x), Ok(fe(1, m)));
            assert_eq!(x.mul(&x.truediv(&x).unwrap()), Ok(x));
            assert_eq!(x.mul(&fe(1, m).truediv(&x).unwrap()), Ok(fe(1, m)));
            for w in 0..m {
                let q = fe(w, m).truediv(&x).unwrap();
                assert_eq!(q.mul(&x), Ok(fe(w, m)));
            }
        }
    }
}

#[test]
fn reciprocals() {
    assert_eq!(mod_inverse(3, 11), Some(4));
    assert_eq!(mod_inverse(7, 19), Some(11));
    assert_eq!(mod_inverse(1, 2), Some(1));
    assert_eq!(mod_inverse(10, 17), Some(12));
    assert_eq!(mod_inverse(-3, 11), Some(7));
    assert_eq!(mod_inverse(14, 11), Some(4));
    assert_eq!(mod_inverse(2, i32::MAX), Some(1_073_741_824));
}

#[test]
fn reciprocal_modulo_one_is_zero() {
    assert_eq!(mod_inverse(0, 1), Some(0));
    assert_eq!(mod_inverse(5, 1), Some(0));
}

#[test]
fn no_reciprocal() {
    assert_eq!(mod_inverse(0, 7), None);
    assert_eq!(mod_inverse(2, 4), None);
    assert_eq!(mod_inverse(6, 9), None);
    assert_eq!(mod_inverse(3, 0), None);
    assert_eq!(mod_inverse(3, -7), None);
}

#[test]
fn reciprocal_times_residue_is_one() {
    for m in 2..40 {
        for a in 0..m {
            match mod_inverse(a, m) {
                Some(w) => {
                    assert!(0 <= w && w < m);
                    assert_eq!((a * w) % m, 1);
                },
                None => assert!((0..m).all(|w| (a * w) % m != 1)),
            }
        }
    }
}

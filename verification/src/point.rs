//! Points of a Weierstrass curve over a field of integers modulo a
//! modulus, with the group law and scalar multiplication.
//!
//! A [`Point`] can only be built through [`Point::new`], which checks the
//! curve equation, and every operation returns a point of the same curve.

use crate::curve::{
    double_and_add, group_add, lemma_add_distinct_closed, lemma_double_closed, on_curve,
    scalar_mul, CurvePoint,
};
use crate::error::EccError;
use crate::field::{FieldElement, Residue};
use crate::modular::{lemma_cong_add, lemma_cong_rem};
use vstd::arithmetic::power::{lemma_pow1, lemma_pow_adds, lemma_square_is_pow2, pow};
use vstd::prelude::*;

verus! {

/// A point of the curve `y^2 = x^3 + a*x + b`: a pair of coordinates, or
/// the point at infinity, which has none.
#[derive(Clone, Copy, Debug, PartialEq, Eq)]
pub struct Point {
    coords: Option<(FieldElement, FieldElement)>,
    a: FieldElement,
    b: FieldElement,
}

impl View for Point {
    type V = CurvePoint;

    closed spec fn view(&self) -> CurvePoint {
        match self.coords {
            None => CurvePoint::Infinity { a: self.a@, b: self.b@ },
            Some((x, y)) => CurvePoint::Finite { x: x@, y: y@, a: self.a@, b: self.b@ },
        }
    }
}

/// The residue of a coordinate that may be absent.
pub open spec fn residue_of(c: Option<FieldElement>) -> Option<Residue> {
    match c {
        Some(e) => Some(e@),
        None => None,
    }
}

/// The curve equation, computed with the operations of the field, says
/// what `on_curve` says.
proof fn lemma_curve_equation(x: Residue, y: Residue, a: Residue, b: Residue)
    requires
        a.modulus > 0,
        x.modulus == a.modulus,
        b.modulus == a.modulus,
    ensures
        y.raised(2) == x.raised(3).plus(a.times(x)).plus(b) <==> on_curve(x, y, a, b),
{
    let m = a.modulus;
    let cube = x.value * x.value * x.value;
    lemma_square_is_pow2(y.value);
    lemma_square_is_pow2(x.value);
    lemma_pow1(x.value);
    lemma_pow_adds(x.value, 2, 1);
    assert(pow(x.value, 3) == cube);
    lemma_cong_rem(cube, m);
    lemma_cong_rem(a.value * x.value, m);
    lemma_cong_add(cube % m, cube, (a.value * x.value) % m, a.value * x.value, m);
    lemma_cong_rem(cube % m + (a.value * x.value) % m, m);
    lemma_cong_add(
        (cube % m + (a.value * x.value) % m) % m,
        cube + a.value * x.value,
        b.value,
        b.value,
        m,
    );
}

impl Point {
    /// Every point is a point of its curve.
    #[verifier::type_invariant]
    pub open spec fn wf(self) -> bool {
        self@.wf()
    }

    /// Builds the point with the given coordinates on the curve with
    /// coefficients `a` and `b`, after checking that it lies on the curve.
    /// Where a coordinate is absent the result is the point at infinity,
    /// and nothing is checked.
    pub fn new(
        x: Option<FieldElement>,
        y: Option<FieldElement>,
        a: FieldElement,
        b: FieldElement,
    ) -> (r: Result<Point, EccError>)
        ensures
            match r {
                Ok(p) => CurvePoint::build(residue_of(x), residue_of(y), a@, b@) == Ok::<
                    CurvePoint,
                    EccError,
                >(p@) && p@.wf(),
                Err(e) => CurvePoint::build(residue_of(x), residue_of(y), a@, b@) == Err::<
                    CurvePoint,
                    EccError,
                >(e),
            },
    {
        proof {
            use_type_invariant(&a);
            use_type_invariant(&b);
        }
        match (x, y) {
            (Some(x), Some(y)) => {
                proof {
                    use_type_invariant(&x);
                    use_type_invariant(&y);
                }
                let x_cubed = x.pow(3)?;
                let y_squared = y.pow(2)?;
                let equation = x_cubed.add(&a.mul(&x)?)?.add(&b)?;
                proof {
                    lemma_curve_equation(x@, y@, a@, b@);
                    y_squared.lemma_view_injective(equation);
                }
                if y_squared != equation {
                    return Err(EccError::NotOnCurve);
                }
                Ok(Point { coords: Some((x, y)), a, b })
            },
            _ => Ok(Point { coords: None, a, b }),
        }
    }

    /// The x-coordinate; none for the point at infinity.
    pub fn x(&self) -> (r: Option<FieldElement>)
        ensures
            match self@ {
                CurvePoint::Infinity { .. } => r is None,
                CurvePoint::Finite { x, .. } => residue_of(r) == Some(x),
            },
    {
        match self.coords {
            None => None,
            Some((x, _)) => Some(x),
        }
    }

    /// The y-coordinate; none for the point at infinity.
    pub fn y(&self) -> (r: Option<FieldElement>)
        ensures
            match self@ {
                CurvePoint::Infinity { .. } => r is None,
                CurvePoint::Finite { y, .. } => residue_of(r) == Some(y),
            },
    {
        match self.coords {
            None => None,
            Some((_, y)) => Some(y),
        }
    }

    /// The coefficient `a` of the curve.
    pub fn a(&self) -> (r: FieldElement)
        ensures
            r@ == self@.a(),
    {
        self.a
    }

    /// The coefficient `b` of the curve.
    pub fn b(&self) -> (r: FieldElement)
        ensures
            r@ == self@.b(),
    {
        self.b
    }

    /// Whether this is the point at infinity.
    pub fn is_infinity(&self) -> (r: bool)
        ensures
            r == (self@ is Infinity),
    {
        self.coords.is_none()
    }

    /// The group law: the sum of two points of one curve.
    pub fn add(&self, other: &Point) -> (r: Result<Point, EccError>)
        ensures
            match r {
                Ok(p) => group_add(self@, other@) == Ok::<CurvePoint, EccError>(p@) && p@.wf(),
                Err(e) => group_add(self@, other@) == Err::<CurvePoint, EccError>(e),
            },
    {
        proof {
            use_type_invariant(self);
            use_type_invariant(other);
            self.a.lemma_view_injective(other.a);
            self.b.lemma_view_injective(other.b);
        }
        if self.a != other.a || self.b != other.b {
            return Err(EccError::DifferentCurve);
        }
        let (x1, y1) = match self.coords {
            None => {
                return Ok(*other);
            },
            Some(c) => c,
        };
        let (x2, y2) = match other.coords {
            None => {
                return Ok(*self);
            },
            Some(c) => c,
        };
        proof {
            x1.lemma_view_injective(x2);
            y1.lemma_view_injective(y2);
        }
        let origin = Point { coords: None, a: self.a, b: self.b };
        if x1 == x2 && y1 != y2 {
            return Ok(origin);
        }
        if x1 == x2 {
            // the two points are the same
            if y1.value() == 0 {
                return Ok(origin);
            }
            let s = x1.pow(2)?.rmul(3)?.add(&self.a)?.truediv(&y1.rmul(2)?)?;
            let x3 = s.pow(2)?.sub(&x1.rmul(2)?)?;
            let y3 = s.mul(&x1.sub(&x3)?)?.sub(&y1)?;
            proof {
                lemma_double_closed(x1@, y1@, self.a@, self.b@);
            }
            Ok(Point { coords: Some((x3, y3)), a: self.a, b: self.b })
        } else {
            let s = y2.sub(&y1)?.truediv(&x2.sub(&x1)?)?;
            let x3 = s.pow(2)?.sub(&x1)?.sub(&x2)?;
            let y3 = s.mul(&x1.sub(&x3)?)?.sub(&y1)?;
            proof {
                lemma_add_distinct_closed(x1@, y1@, x2@, y2@, self.a@, self.b@);
            }
            Ok(Point { coords: Some((x3, y3)), a: self.a, b: self.b })
        }
    }

    /// Scalar multiplication by double-and-add: the sum of `coefficient`
    /// copies of the point, in a number of additions that grows with the
    /// length of the coefficient and not with its size.
    pub fn rmul(&self, coefficient: usize) -> (r: Result<Point, EccError>)
        ensures
            match r {
                Ok(p) => scalar_mul(self@, coefficient as nat) == Ok::<CurvePoint, EccError>(p@)
                    && p@.wf(),
                Err(e) => scalar_mul(self@, coefficient as nat) == Err::<CurvePoint, EccError>(
                    e,
                ),
            },
    {
        proof {
            use_type_invariant(self);
        }
        let mut coef: usize = coefficient;
        let mut current = *self;
        let mut result = Point { coords: None, a: self.a, b: self.b };
        while coef > 0
            invariant
                double_and_add(result@, current@, coef as nat) == scalar_mul(
                    self@,
                    coefficient as nat,
                ),
                result@.wf(),
            decreases coef,
        {
            if coef % 2 == 1 {
                result = result.add(&current)?;
            }
            current = current.add(&current)?;
            coef = coef / 2;
        }
        Ok(result)
    }
}

} // verus!

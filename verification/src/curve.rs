//! The points of a Weierstrass curve `y^2 = x^3 + a*x + b` and their group
//! law, over mathematical residues.
//!
//! This is the model that [`crate::point::Point`] is held to. The law is
//! the chord-and-tangent rule; scalar multiplication is double-and-add.

use crate::error::EccError;
use crate::field::Residue;
use crate::modular::{
    inverse, is_inverse, lemma_cong_add, lemma_cong_mul, lemma_cong_rem, lemma_cong_sub,
    lemma_inverse_cancels, lemma_inverse_exists,
};
use vstd::arithmetic::div_mod::{lemma_mod_equivalence, lemma_small_mod};
use vstd::arithmetic::power::lemma_square_is_pow2;
use vstd::prelude::*;

verus! {

/// A point of the curve with coefficients `a` and `b`: the point at
/// infinity, or a pair of coordinates.
pub enum CurvePoint {
    Infinity { a: Residue, b: Residue },
    Finite { x: Residue, y: Residue, a: Residue, b: Residue },
}

/// The coordinates and coefficients belong to one field and satisfy
/// `y^2 = x^3 + a*x + b` in it.
pub open spec fn on_curve(x: Residue, y: Residue, a: Residue, b: Residue) -> bool {
    &&& x.modulus == a.modulus
    &&& y.modulus == a.modulus
    &&& b.modulus == a.modulus
    &&& (y.value * y.value) % a.modulus == (x.value * x.value * x.value + a.value * x.value
        + b.value) % a.modulus
}

impl CurvePoint {
    /// The coefficient `a` of the point's curve.
    pub open spec fn a(self) -> Residue {
        match self {
            CurvePoint::Infinity { a, .. } => a,
            CurvePoint::Finite { a, .. } => a,
        }
    }

    /// The coefficient `b` of the point's curve.
    pub open spec fn b(self) -> Residue {
        match self {
            CurvePoint::Infinity { b, .. } => b,
            CurvePoint::Finite { b, .. } => b,
        }
    }

    /// The point at infinity of the same curve.
    pub open spec fn origin(self) -> CurvePoint {
        CurvePoint::Infinity { a: self.a(), b: self.b() }
    }

    /// Coordinates and coefficients are residues, and a finite point lies
    /// on its curve. Nothing is asked of the coefficients of a point at
    /// infinity beyond being residues.
    pub open spec fn wf(self) -> bool {
        match self {
            CurvePoint::Infinity { a, b } => a.wf() && b.wf(),
            CurvePoint::Finite { x, y, a, b } => x.wf() && y.wf() && a.wf() && b.wf() && on_curve(
                x,
                y,
                a,
                b,
            ),
        }
    }

    /// The point with the given coordinates, if both are present and it
    /// lies on the curve; the point at infinity if a coordinate is absent.
    pub open spec fn build(x: Option<Residue>, y: Option<Residue>, a: Residue, b: Residue) -> Result<
        CurvePoint,
        EccError,
    > {
        match (x, y) {
            (Some(x), Some(y)) => if a.modulus != x.modulus || b.modulus != x.modulus {
                Err(EccError::FieldMismatch)
            } else if !on_curve(x, y, a, b) {
                Err(EccError::NotOnCurve)
            } else {
                Ok(CurvePoint::Finite { x, y, a, b })
            },
            _ => Ok(CurvePoint::Infinity { a, b }),
        }
    }
}

/// The third point in which the line of slope `s` through `(x1, y1)` and a
/// point of abscissa `x2` meets the curve, reflected in the x-axis.
pub open spec fn chord_point(s: Residue, x1: Residue, y1: Residue, x2: Residue) -> (Residue, Residue) {
    let x3 = s.raised(2).minus(x1).minus(x2);
    let y3 = s.times(x1.minus(x3)).minus(y1);
    (x3, y3)
}

/// The second point in which the tangent of slope `s` at `(x, y)` meets
/// the curve, reflected in the x-axis.
pub open spec fn tangent_point(s: Residue, x: Residue, y: Residue) -> (Residue, Residue) {
    let x3 = s.raised(2).minus(x.scaled(2));
    let y3 = s.times(x.minus(x3)).minus(y);
    (x3, y3)
}

/// The sum of two distinct finite points with different abscissas.
pub open spec fn add_distinct(
    x1: Residue,
    y1: Residue,
    x2: Residue,
    y2: Residue,
    a: Residue,
    b: Residue,
) -> Result<CurvePoint, EccError> {
    match y2.minus(y1).quotient(x2.minus(x1)) {
        Ok(s) => {
            let (x, y) = chord_point(s, x1, y1, x2);
            Ok(CurvePoint::Finite { x, y, a, b })
        },
        Err(e) => Err(e),
    }
}

/// Twice a finite point. Where the tangent is vertical this is the point
/// at infinity.
pub open spec fn double(x: Residue, y: Residue, a: Residue, b: Residue) -> Result<
    CurvePoint,
    EccError,
> {
    if y.value == 0 {
        Ok(CurvePoint::Infinity { a, b })
    } else {
        match x.raised(2).scaled(3).plus(a).quotient(y.scaled(2)) {
            Ok(s) => {
                let (x, y) = tangent_point(s, x, y);
                Ok(CurvePoint::Finite { x, y, a, b })
            },
            Err(e) => Err(e),
        }
    }
}

/// The group law. Points of different curves have no sum. A division
/// fails only where the modulus is not an odd prime.
pub open spec fn group_add(p: CurvePoint, q: CurvePoint) -> Result<CurvePoint, EccError> {
    if p.a() != q.a() || p.b() != q.b() {
        Err(EccError::DifferentCurve)
    } else {
        match (p, q) {
            (CurvePoint::Infinity { .. }, _) => Ok(q),
            (_, CurvePoint::Infinity { .. }) => Ok(p),
            (
                CurvePoint::Finite { x: x1, y: y1, a, b },
                CurvePoint::Finite { x: x2, y: y2, .. },
            ) => {
                if x1 == x2 && y1 != y2 {
                    Ok(CurvePoint::Infinity { a, b })
                } else if x1 == x2 {
                    double(x1, y1, a, b)
                } else {
                    add_distinct(x1, y1, x2, y2, a, b)
                }
            },
        }
    }
}

/// Double-and-add: `acc` plus `k` times `cur`, taking the bits of `k` from
/// the least significant. The running point is doubled after every bit,
/// the last one included.
pub open spec fn double_and_add(acc: CurvePoint, cur: CurvePoint, k: nat) -> Result<
    CurvePoint,
    EccError,
>
    decreases k,
{
    if k == 0 {
        Ok(acc)
    } else {
        let sum = if k % 2 == 1 {
            group_add(acc, cur)
        } else {
            Ok(acc)
        };
        match (sum, group_add(cur, cur)) {
            (Ok(acc), Ok(cur)) => double_and_add(acc, cur, k / 2),
            (Err(e), _) => Err(e),
            (_, Err(e)) => Err(e),
        }
    }
}

/// `k` times the point `p`.
pub open spec fn scalar_mul(p: CurvePoint, k: nat) -> Result<CurvePoint, EccError> {
    double_and_add(p.origin(), p, k)
}

/// How far `(x, y)` is from satisfying `y^2 = x^3 + a*x + b`.
pub open spec fn defect(x: int, y: int, a: int, b: int) -> int {
    y * y - (x * x * x + a * x + b)
}

/// For the line of slope `s` through `(x1, y1)`: the curve equation
/// restricted to the line, divided by `x - x1`.
pub open spec fn cofactor(s: int, x1: int, y1: int, a: int, x: int) -> int {
    s * s * (x - x1) + 2 * s * y1 - x * x - x * x1 - x1 * x1 - a
}

/// On the line of slope `s` through `(x1, y1)` the defect is that of
/// `(x1, y1)` plus `x - x1` times the cofactor.
proof fn lemma_defect_along_line(s: int, x1: int, y1: int, a: int, b: int, x: int)
    ensures
        defect(x, s * (x1 - x) - y1, a, b) == defect(x1, y1, a, b) + (x - x1) * cofactor(
            s,
            x1,
            y1,
            a,
            x,
        ),
{
    let d = x - x1;
    let y = s * (x1 - x) - y1;
    let p = s * s * d + 2 * s * y1;
    let q = x * x + x * x1 + x1 * x1;
    assert(y * y - y1 * y1 == d * p) by (nonlinear_arith)
        requires
            y == s * (x1 - x) - y1,
            d == x - x1,
            p == s * s * d + 2 * s * y1,
    ;
    assert(x * x * x - x1 * x1 * x1 == d * q) by (nonlinear_arith)
        requires
            d == x - x1,
            q == x * x + x * x1 + x1 * x1,
    ;
    assert(a * x - a * x1 == d * a) by (nonlinear_arith)
        requires
            d == x - x1,
    ;
    assert(d * (p - q - a) == d * p - d * q - d * a) by (nonlinear_arith);
}

/// The cofactor at `x` and at `x2` differ by a multiple of
/// `s^2 - x1 - x2 - x`.
proof fn lemma_cofactor_difference(s: int, x1: int, y1: int, a: int, x2: int, x: int)
    ensures
        cofactor(s, x1, y1, a, x) == cofactor(s, x1, y1, a, x2) + (x - x2) * (s * s - x1 - x2 - x),
{
    assert(cofactor(s, x1, y1, a, x) == cofactor(s, x1, y1, a, x2) + (x - x2) * (s * s - x1 - x2
        - x)) by (nonlinear_arith);
}

/// Membership in the curve, as a vanishing defect.
proof fn lemma_on_curve_defect(x: Residue, y: Residue, a: Residue, b: Residue)
    requires
        a.modulus > 0,
        x.modulus == a.modulus,
        y.modulus == a.modulus,
        b.modulus == a.modulus,
    ensures
        on_curve(x, y, a, b) <==> defect(x.value, y.value, a.value, b.value) % a.modulus == 0,
{
    lemma_mod_equivalence(
        y.value * y.value,
        x.value * x.value * x.value + a.value * x.value + b.value,
        a.modulus,
    );
}

/// If `(x1, y1)` lies on the curve modulo `m` and the cofactor of the line
/// of slope `s` through it vanishes at `x2`, the line meets the curve again
/// at abscissa `s^2 - x1 - x2`.
proof fn lemma_third_point(s: int, x1: int, y1: int, x2: int, a: int, b: int, m: int)
    requires
        m > 0,
        defect(x1, y1, a, b) % m == 0,
        cofactor(s, x1, y1, a, x2) % m == 0,
    ensures
        ({
            let x3 = (s * s - x1 - x2) % m;
            let y3 = (s * (x1 - x3) - y1) % m;
            defect(x3, y3, a, b) % m == 0
        }),
{
    let x3 = (s * s - x1 - x2) % m;
    let y = s * (x1 - x3) - y1;
    let y3 = y % m;
    lemma_small_mod(0, m as nat);
    // the cofactor vanishes at x3
    lemma_cong_rem(s * s - x1 - x2, m);
    lemma_mod_equivalence(s * s - x1 - x2, x3, m);
    lemma_cong_mul(x3 - x2, x3 - x2, s * s - x1 - x2 - x3, 0, m);
    assert((x3 - x2) * 0 == 0);
    lemma_cofactor_difference(s, x1, y1, a, x2, x3);
    lemma_cong_add(cofactor(s, x1, y1, a, x2), 0, (x3 - x2) * (s * s - x1 - x2 - x3), 0, m);
    // hence so does the defect of (x3, y)
    lemma_cong_mul(x3 - x1, x3 - x1, cofactor(s, x1, y1, a, x3), 0, m);
    assert((x3 - x1) * 0 == 0);
    lemma_defect_along_line(s, x1, y1, a, b, x3);
    lemma_cong_add(defect(x1, y1, a, b), 0, (x3 - x1) * cofactor(s, x1, y1, a, x3), 0, m);
    // and of (x3, y3), since y3 is congruent to y
    lemma_cong_rem(y, m);
    lemma_cong_mul(y3, y, y3, y, m);
    let rhs = x3 * x3 * x3 + a * x3 + b;
    lemma_cong_sub(y3 * y3, y * y, rhs, rhs, m);
}

/// The slope of the chord through two points of the curve makes the
/// cofactor vanish at the second point.
proof fn lemma_chord_cofactor(
    s: int,
    u: int,
    x1: int,
    y1: int,
    x2: int,
    y2: int,
    a: int,
    b: int,
    m: int,
)
    requires
        m > 0,
        defect(x1, y1, a, b) % m == 0,
        defect(x2, y2, a, b) % m == 0,
        is_inverse(x2 - x1, u, m),
        s % m == ((y2 - y1) * u) % m,
    ensures
        cofactor(s, x1, y1, a, x2) % m == 0,
{
    let c = cofactor(s, x1, y1, a, x2);
    lemma_small_mod(0, m as nat);
    // s * (x2 - x1) is congruent to y2 - y1
    lemma_cong_mul(s, (y2 - y1) * u, x2 - x1, x2 - x1, m);
    lemma_inverse_cancels(y2 - y1, x2 - x1, u, m);
    // so the line passes through (x2, y2): its ordinate there, reflected, is -y2
    let y = s * (x1 - x2) - y1;
    assert(y == -y1 - s * (x2 - x1)) by (nonlinear_arith)
        requires
            y == s * (x1 - x2) - y1,
    ;
    lemma_cong_sub(-y1, -y1, s * (x2 - x1), y2 - y1, m);
    assert(y % m == (-y2) % m);
    lemma_cong_mul(y, -y2, y, -y2, m);
    assert((-y2) * (-y2) == y2 * y2) by (nonlinear_arith);
    let rhs = x2 * x2 * x2 + a * x2 + b;
    lemma_cong_sub(y * y, y2 * y2, rhs, rhs, m);
    assert(defect(x2, y, a, b) % m == 0);
    // (x2 - x1) * c is congruent to zero, and x2 - x1 can be divided out
    lemma_defect_along_line(s, x1, y1, a, b, x2);
    lemma_cong_sub(defect(x2, y, a, b), 0, defect(x1, y1, a, b), 0, m);
    assert(((x2 - x1) * c) % m == 0);
    assert((x2 - x1) * c == c * (x2 - x1)) by (nonlinear_arith);
    lemma_cong_mul(c * (x2 - x1), 0, u, u, m);
    assert(0 * u == 0);
    lemma_inverse_cancels(c, x2 - x1, u, m);
}

/// The slope of the tangent at a point makes the cofactor vanish there.
proof fn lemma_tangent_cofactor(s: int, u: int, x1: int, y1: int, a: int, m: int)
    requires
        m > 0,
        is_inverse(2 * y1, u, m),
        s % m == ((3 * (x1 * x1) + a) * u) % m,
    ensures
        cofactor(s, x1, y1, a, x1) % m == 0,
{
    let n = 3 * (x1 * x1) + a;
    lemma_cong_mul(s, n * u, 2 * y1, 2 * y1, m);
    lemma_inverse_cancels(n, 2 * y1, u, m);
    assert((s * (2 * y1)) % m == n % m);
    lemma_mod_equivalence(s * (2 * y1), n, m);
    assert(cofactor(s, x1, y1, a, x1) == s * (2 * y1) - n) by (nonlinear_arith)
        requires
            n == 3 * (x1 * x1) + a,
    ;
}

/// The coordinates of `chord_point`, as polynomials in the slope and the
/// given coordinates.
pub proof fn lemma_chord_point_values(s: Residue, x1: Residue, y1: Residue, x2: Residue)
    requires
        s.modulus > 0,
        x1.modulus == s.modulus,
    ensures
        ({
            let m = s.modulus;
            let (x3, y3) = chord_point(s, x1, y1, x2);
            &&& x3.modulus == m
            &&& y3.modulus == m
            &&& x3.value == (s.value * s.value - x1.value - x2.value) % m
            &&& y3.value == (s.value * (x1.value - x3.value) - y1.value) % m
        }),
{
    let m = s.modulus;
    let (x3, y3) = chord_point(s, x1, y1, x2);
    let square = s.value * s.value;
    lemma_square_is_pow2(s.value);
    lemma_cong_rem(square, m);
    lemma_cong_sub(square % m, square, x1.value, x1.value, m);
    lemma_cong_rem(square % m - x1.value, m);
    lemma_cong_sub((square % m - x1.value) % m, square - x1.value, x2.value, x2.value, m);
    let d = x1.value - x3.value;
    lemma_cong_rem(d, m);
    lemma_cong_mul(s.value, s.value, d % m, d, m);
    lemma_cong_rem(s.value * (d % m), m);
    lemma_cong_sub((s.value * (d % m)) % m, s.value * d, y1.value, y1.value, m);
}

/// The coordinates of `tangent_point`, as polynomials in the slope and the
/// given coordinates.
pub proof fn lemma_tangent_point_values(s: Residue, x: Residue, y: Residue)
    requires
        s.modulus > 0,
        x.modulus == s.modulus,
    ensures
        ({
            let m = s.modulus;
            let (x3, y3) = tangent_point(s, x, y);
            &&& x3.modulus == m
            &&& y3.modulus == m
            &&& x3.value == (s.value * s.value - x.value - x.value) % m
            &&& y3.value == (s.value * (x.value - x3.value) - y.value) % m
        }),
{
    let m = s.modulus;
    let (x3, y3) = tangent_point(s, x, y);
    let square = s.value * s.value;
    lemma_square_is_pow2(s.value);
    lemma_cong_rem(square, m);
    lemma_cong_rem(x.value * 2, m);
    lemma_cong_sub(square % m, square, (x.value * 2) % m, x.value * 2, m);
    let d = x.value - x3.value;
    lemma_cong_rem(d, m);
    lemma_cong_mul(s.value, s.value, d % m, d, m);
    lemma_cong_rem(s.value * (d % m), m);
    lemma_cong_sub((s.value * (d % m)) % m, s.value * d, y.value, y.value, m);
}

/// The sum of two finite points of a curve with different abscissas,
/// where the slope of their chord exists, lies on the curve.
pub proof fn lemma_add_distinct_closed(
    x1: Residue,
    y1: Residue,
    x2: Residue,
    y2: Residue,
    a: Residue,
    b: Residue,
)
    requires
        (CurvePoint::Finite { x: x1, y: y1, a, b }).wf(),
        (CurvePoint::Finite { x: x2, y: y2, a, b }).wf(),
        add_distinct(x1, y1, x2, y2, a, b) is Ok,
    ensures
        add_distinct(x1, y1, x2, y2, a, b).unwrap().wf(),
{
    let m = a.modulus;
    let dy = y2.minus(y1);
    let dx = x2.minus(x1);
    let s = dy.over(dx);
    let u = inverse(dx.value, m);
    let (x3, y3) = chord_point(s, x1, y1, x2);
    lemma_on_curve_defect(x1, y1, a, b);
    lemma_on_curve_defect(x2, y2, a, b);
    // u is the reciprocal of x2 - x1, and s is (y2 - y1) * u
    lemma_inverse_exists(dx.value, m);
    lemma_cong_rem(x2.value - x1.value, m);
    lemma_cong_mul(dx.value, x2.value - x1.value, u, u, m);
    lemma_cong_rem(y2.value - y1.value, m);
    lemma_cong_mul(dy.value, y2.value - y1.value, u, u, m);
    lemma_cong_rem(dy.value * u, m);
    lemma_chord_cofactor(s.value, u, x1.value, y1.value, x2.value, y2.value, a.value, b.value, m);
    lemma_third_point(s.value, x1.value, y1.value, x2.value, a.value, b.value, m);
    lemma_chord_point_values(s, x1, y1, x2);
    lemma_cong_rem(s.value * s.value - x1.value - x2.value, m);
    lemma_cong_rem(s.value * (x1.value - x3.value) - y1.value, m);
    lemma_on_curve_defect(x3, y3, a, b);
}

/// Twice a finite point of a curve, where it exists, lies on the curve.
pub proof fn lemma_double_closed(x: Residue, y: Residue, a: Residue, b: Residue)
    requires
        (CurvePoint::Finite { x, y, a, b }).wf(),
        double(x, y, a, b) is Ok,
    ensures
        double(x, y, a, b).unwrap().wf(),
{
    if y.value != 0 {
        let m = a.modulus;
        let n = x.raised(2).scaled(3).plus(a);
        let d = y.scaled(2);
        let s = n.over(d);
        let u = inverse(d.value, m);
        let (x3, y3) = tangent_point(s, x, y);
        lemma_on_curve_defect(x, y, a, b);
        // u is the reciprocal of 2 * y
        lemma_inverse_exists(d.value, m);
        lemma_cong_rem(y.value * 2, m);
        lemma_cong_mul(d.value, y.value * 2, u, u, m);
        assert(y.value * 2 == 2 * y.value);
        // s is (3 * x^2 + a) * u
        let square = x.value * x.value;
        lemma_square_is_pow2(x.value);
        lemma_cong_rem(square, m);
        lemma_cong_mul(square % m, square, 3, 3, m);
        lemma_cong_rem((square % m) * 3, m);
        lemma_cong_add(((square % m) * 3) % m, square * 3, a.value, a.value, m);
        lemma_cong_rem(((square % m) * 3) % m + a.value, m);
        assert(n.value % m == (3 * square + a.value) % m);
        lemma_cong_mul(n.value, 3 * square + a.value, u, u, m);
        lemma_cong_rem(n.value * u, m);
        lemma_tangent_cofactor(s.value, u, x.value, y.value, a.value, m);
        lemma_third_point(s.value, x.value, y.value, x.value, a.value, b.value, m);
        lemma_tangent_point_values(s, x, y);
        lemma_cong_rem(s.value * s.value - x.value - x.value, m);
        lemma_cong_rem(s.value * (x.value - x3.value) - y.value, m);
        lemma_on_curve_defect(x3, y3, a, b);
    }
}

/// The group is closed: the sum of two points of a curve, where there is
/// one, is again a point of that curve.
pub proof fn lemma_group_add_closed(p: CurvePoint, q: CurvePoint)
    requires
        p.wf(),
        q.wf(),
        group_add(p, q) is Ok,
    ensures
        group_add(p, q).unwrap().wf(),
        group_add(p, q).unwrap().a() == p.a(),
        group_add(p, q).unwrap().b() == p.b(),
{
    match (p, q) {
        (
            CurvePoint::Finite { x: x1, y: y1, a, b },
            CurvePoint::Finite { x: x2, y: y2, .. },
        ) => {
            if x1 == x2 && y1 != y2 {
            } else if x1 == x2 {
                lemma_double_closed(x1, y1, a, b);
            } else {
                lemma_add_distinct_closed(x1, y1, x2, y2, a, b);
            }
        },
        _ => {},
    }
}

} // verus!

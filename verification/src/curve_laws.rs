//! What holds of the group law and of scalar multiplication, for every
//! curve and every point of it.

use crate::curve::{
    add_distinct, chord_point, double_and_add, group_add, lemma_chord_point_values,
    lemma_group_add_closed, scalar_mul, CurvePoint,
};
use crate::error::EccError;
use crate::field::Residue;
use crate::modular::{
    inverse, invertible, is_prime, lemma_cong_mul, lemma_cong_rem, lemma_cong_sub,
    lemma_inverse_cancels, lemma_inverse_congruent, lemma_inverse_exists,
    lemma_inverse_of_opposite, lemma_prime_invertible, lemma_rem_of_negative,
};
use vstd::arithmetic::div_mod::{lemma_fundamental_div_mod, lemma_mod_equivalence, lemma_small_mod};
use vstd::prelude::*;

verus! {

/// The reflection of a point in the x-axis: the same abscissa, the
/// opposite ordinate. The point at infinity is its own reflection.
pub open spec fn opposite(p: CurvePoint) -> CurvePoint {
    match p {
        CurvePoint::Infinity { .. } => p,
        CurvePoint::Finite { x, y, a, b } => CurvePoint::Finite {
            x,
            y: Residue::zero(y.modulus).minus(y),
            a,
            b,
        },
    }
}

/// The point at infinity is the identity: added on either side to a point
/// of its curve, it leaves the point as it is.
pub proof fn lemma_identity(p: CurvePoint)
    ensures
        group_add(p, p.origin()) == Ok::<CurvePoint, EccError>(p),
        group_add(p.origin(), p) == Ok::<CurvePoint, EccError>(p),
{
}

/// Points of curves with different coefficients cannot be added.
pub proof fn lemma_different_curves(p: CurvePoint, q: CurvePoint)
    requires
        p.a() != q.a() || p.b() != q.b(),
    ensures
        group_add(p, q) == Err::<CurvePoint, EccError>(EccError::DifferentCurve),
{
}

/// The reflection of a point of a curve is a point of the curve.
pub proof fn lemma_opposite_on_curve(p: CurvePoint)
    requires
        p.wf(),
    ensures
        opposite(p).wf(),
        opposite(p).a() == p.a(),
        opposite(p).b() == p.b(),
{
    match p {
        CurvePoint::Infinity { .. } => {},
        CurvePoint::Finite { x, y, a, b } => {
            let m = a.modulus;
            let n = Residue::zero(m).minus(y);
            lemma_cong_rem(0 - y.value, m);
            lemma_cong_mul(n.value, -y.value, n.value, -y.value, m);
            assert((-y.value) * (-y.value) == y.value * y.value) by (nonlinear_arith);
        },
    }
}

/// A finite point and its reflection add up to the point at infinity,
/// unless the ordinate is half the modulus: then the two are one point
/// with a nonzero ordinate, and doubling it divides by zero.
pub proof fn lemma_opposite_cancels(p: CurvePoint)
    requires
        p.wf(),
        p matches CurvePoint::Finite { y, .. } ==> 2 * y.value != y.modulus,
    ensures
        group_add(p, opposite(p)) == Ok::<CurvePoint, EccError>(p.origin()),
        group_add(opposite(p), p) == Ok::<CurvePoint, EccError>(p.origin()),
{
    match p {
        CurvePoint::Infinity { .. } => {},
        CurvePoint::Finite { x, y, a, b } => {
            let m = a.modulus;
            let n = Residue::zero(m).minus(y);
            lemma_rem_of_negative(y.value, m);
            lemma_small_mod(y.value as nat, m as nat);
            if n == y {
                assert(y.value == 0);
            }
        },
    }
}

/// Modulo an odd prime the sum of two points of one curve always exists.
pub proof fn lemma_group_add_defined(p: CurvePoint, q: CurvePoint)
    requires
        p.wf(),
        q.wf(),
        p.a() == q.a(),
        p.b() == q.b(),
        is_prime(p.a().modulus),
        p.a().modulus > 2,
    ensures
        group_add(p, q) is Ok,
{
    let m = p.a().modulus;
    match (p, q) {
        (
            CurvePoint::Finite { x: x1, y: y1, a, b },
            CurvePoint::Finite { x: x2, y: y2, .. },
        ) => {
            if x1 == x2 && y1 != y2 {
            } else if x1 == x2 {
                if y1.value != 0 {
                    // 2 * y is not a multiple of m: it lies strictly between
                    // 0 and 2 * m, and m is odd
                    let d = y1.scaled(2);
                    lemma_cong_rem(y1.value * 2, m);
                    if d.value == 0 {
                        lemma_fundamental_div_mod(y1.value * 2, m);
                        let k = (y1.value * 2) / m;
                        assert(k == 1) by (nonlinear_arith)
                            requires
                                y1.value * 2 == m * k,
                                0 < y1.value * 2 < 2 * m,
                                m > 0,
                        ;
                        assert(m * k == m) by (nonlinear_arith)
                            requires
                                k == 1,
                        ;
                        assert(m % 2 == 0);
                    }
                    lemma_small_mod(d.value as nat, m as nat);
                    lemma_prime_invertible(d.value, m);
                }
            } else {
                let d = x2.minus(x1);
                lemma_cong_rem(x2.value - x1.value, m);
                if d.value == 0 {
                    if x2.value > x1.value {
                        lemma_small_mod((x2.value - x1.value) as nat, m as nat);
                    } else {
                        lemma_rem_of_negative(x1.value - x2.value, m);
                        lemma_small_mod((x1.value - x2.value) as nat, m as nat);
                    }
                }
                lemma_small_mod(d.value as nat, m as nat);
                lemma_prime_invertible(d.value, m);
            }
        },
        _ => {},
    }
}

/// Double-and-add, started from points of one curve over an odd prime,
/// always yields a point of that curve.
pub proof fn lemma_double_and_add_defined(acc: CurvePoint, cur: CurvePoint, k: nat)
    requires
        acc.wf(),
        cur.wf(),
        acc.a() == cur.a(),
        acc.b() == cur.b(),
        is_prime(cur.a().modulus),
        cur.a().modulus > 2,
    ensures
        double_and_add(acc, cur, k) is Ok,
        double_and_add(acc, cur, k).unwrap().wf(),
        double_and_add(acc, cur, k).unwrap().a() == cur.a(),
        double_and_add(acc, cur, k).unwrap().b() == cur.b(),
    decreases k,
{
    if k != 0 {
        lemma_group_add_defined(acc, cur);
        lemma_group_add_closed(acc, cur);
        lemma_group_add_defined(cur, cur);
        lemma_group_add_closed(cur, cur);
        let sum = if k % 2 == 1 {
            group_add(acc, cur).unwrap()
        } else {
            acc
        };
        lemma_double_and_add_defined(sum, group_add(cur, cur).unwrap(), k / 2);
    }
}

/// Modulo an odd prime every multiple of a point of a curve exists and is
/// a point of that curve.
pub proof fn lemma_scalar_mul_defined(p: CurvePoint, k: nat)
    requires
        p.wf(),
        is_prime(p.a().modulus),
        p.a().modulus > 2,
    ensures
        scalar_mul(p, k) is Ok,
        scalar_mul(p, k).unwrap().wf(),
        scalar_mul(p, k).unwrap().a() == p.a(),
        scalar_mul(p, k).unwrap().b() == p.b(),
{
    lemma_double_and_add_defined(p.origin(), p, k);
}

/// Zero times any point is the point at infinity.
pub proof fn lemma_scalar_mul_zero(p: CurvePoint)
    ensures
        scalar_mul(p, 0) == Ok::<CurvePoint, EccError>(p.origin()),
{
}

/// Where it exists, once a point is the point, and twice a point is the
/// point added to itself.
pub proof fn lemma_scalar_mul_small(p: CurvePoint)
    requires
        p.wf(),
    ensures
        scalar_mul(p, 1) is Ok ==> scalar_mul(p, 1) == Ok::<CurvePoint, EccError>(p),
        scalar_mul(p, 2) is Ok ==> scalar_mul(p, 2) == group_add(p, p),
{
    reveal_with_fuel(double_and_add, 3);
    if group_add(p, p) is Ok {
        lemma_group_add_closed(p, p);
    }
}

/// The chord through two points is the same line whichever point comes
/// first: where the abscissas differ, the sum does not depend on the order.
pub proof fn lemma_add_distinct_commutes(
    x1: Residue,
    y1: Residue,
    x2: Residue,
    y2: Residue,
    a: Residue,
    b: Residue,
)
    requires
        (CurvePoint::Finite { x: x1, y: y1, a, b }).wf(),
        (CurvePoint::Finite { x: x2, y: y2, a, b }).wf(),
    ensures
        add_distinct(x1, y1, x2, y2, a, b) == add_distinct(x2, y2, x1, y1, a, b),
{
    let m = a.modulus;
    let d = x2.minus(x1);
    let e = x1.minus(x2);
    let dy = y2.minus(y1);
    let ey = y1.minus(y2);
    lemma_small_mod(0, m as nat);
    // each difference is the opposite of the other
    lemma_cong_rem(x2.value - x1.value, m);
    lemma_cong_rem(x1.value - x2.value, m);
    lemma_cong_rem(y2.value - y1.value, m);
    lemma_cong_rem(y1.value - y2.value, m);
    lemma_cong_sub(0, 0, d.value, x2.value - x1.value, m);
    lemma_cong_sub(0, 0, e.value, x1.value - x2.value, m);
    lemma_cong_sub(0, 0, dy.value, y2.value - y1.value, m);
    assert(e.value % m == (-d.value) % m);
    assert(d.value % m == (-e.value) % m);
    assert(ey.value % m == (-dy.value) % m);
    lemma_small_mod(d.value as nat, m as nat);
    lemma_small_mod(e.value as nat, m as nat);
    if invertible(d.value, m) {
        lemma_inverse_of_opposite(d.value, m);
        lemma_inverse_congruent(-d.value, e.value, m);
    }
    if invertible(e.value, m) {
        lemma_inverse_of_opposite(e.value, m);
        lemma_inverse_congruent(-e.value, d.value, m);
    }
    if d.value != 0 && invertible(d.value, m) {
        let u = inverse(d.value, m);
        let v = inverse(e.value, m);
        let s = dy.over(d);
        let t = ey.over(e);
        lemma_inverse_exists(d.value, m);
        // the two slopes are one
        lemma_cong_rem(-u, m);
        lemma_cong_mul(ey.value, -dy.value, v, -u, m);
        assert((-dy.value) * (-u) == dy.value * u) by (nonlinear_arith);
        assert(s == t);
        // s * (x2 - x1) is congruent to y2 - y1
        lemma_cong_mul(d.value, x2.value - x1.value, u, u, m);
        lemma_cong_mul(dy.value, y2.value - y1.value, u, u, m);
        lemma_cong_rem(dy.value * u, m);
        lemma_cong_mul(s.value, (y2.value - y1.value) * u, x2.value - x1.value, x2.value - x1.value, m);
        lemma_inverse_cancels(y2.value - y1.value, x2.value - x1.value, u, m);
        // so both ordinates are that of one point
        lemma_chord_point_values(s, x1, y1, x2);
        lemma_chord_point_values(s, x2, y2, x1);
        let (x3, y3) = chord_point(s, x1, y1, x2);
        let (x4, y4) = chord_point(s, x2, y2, x1);
        assert(s.value * s.value - x1.value - x2.value == s.value * s.value - x2.value - x1.value);
        assert(x3 == x4);
        let p = s.value * (x1.value - x3.value) - y1.value;
        let q = s.value * (x2.value - x3.value) - y2.value;
        assert(p - q == (y2.value - y1.value) - s.value * (x2.value - x1.value)) by (nonlinear_arith)
            requires
                p == s.value * (x1.value - x3.value) - y1.value,
                q == s.value * (x2.value - x3.value) - y2.value,
        ;
        lemma_mod_equivalence(y2.value - y1.value, s.value * (x2.value - x1.value), m);
        lemma_mod_equivalence(p, q, m);
        assert(y3 == y4);
    }
}

/// The group law is commutative: whether the sum of two points of a curve
/// exists, and what it is, does not depend on their order.
pub proof fn lemma_group_add_commutes(p: CurvePoint, q: CurvePoint)
    requires
        p.wf(),
        q.wf(),
    ensures
        group_add(p, q) == group_add(q, p),
{
    match (p, q) {
        (
            CurvePoint::Finite { x: x1, y: y1, a, b },
            CurvePoint::Finite { x: x2, y: y2, a: a2, b: b2 },
        ) => {
            if a == a2 && b == b2 && x1 != x2 {
                lemma_add_distinct_commutes(x1, y1, x2, y2, a, b);
            }
        },
        _ => {},
    }
}

} // verus!

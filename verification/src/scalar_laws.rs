//! Double-and-add against the sum of `k` copies of a point, taken one at a
//! time. The two agree for up to three copies on every curve, and for any
//! number of copies wherever the group law is associative.

use crate::curve::{double_and_add, group_add, lemma_group_add_closed, scalar_mul, CurvePoint};
use crate::curve_laws::{lemma_group_add_commutes, lemma_group_add_defined};
use crate::error::EccError;
use crate::field::Residue;
use crate::modular::is_prime;
use vstd::prelude::*;

verus! {

/// The sum of `k` copies of `p`, added one at a time to the point at
/// infinity.
pub open spec fn repeated_add(p: CurvePoint, k: nat) -> Result<CurvePoint, EccError>
    decreases k,
{
    if k == 0 {
        Ok(p.origin())
    } else {
        match repeated_add(p, (k - 1) as nat) {
            Ok(s) => group_add(s, p),
            Err(e) => Err(e),
        }
    }
}

/// `p` is a point of the curve with coefficients `a` and `b`.
pub open spec fn lies_on(p: CurvePoint, a: Residue, b: Residue) -> bool {
    p.wf() && p.a() == a && p.b() == b
}

/// Adding `p`, `q` and `r` gives the same whichever sum is taken first,
/// where the sums exist.
pub open spec fn associates(p: CurvePoint, q: CurvePoint, r: CurvePoint) -> bool {
    match (group_add(p, q), group_add(q, r)) {
        (Ok(pq), Ok(qr)) => group_add(pq, r) == group_add(p, qr),
        _ => true,
    }
}

/// The group law of the curve with coefficients `a` and `b` is
/// associative.
pub open spec fn associative(a: Residue, b: Residue) -> bool {
    forall|p: CurvePoint, q: CurvePoint, r: CurvePoint|
        lies_on(p, a, b) && lies_on(q, a, b) && lies_on(r, a, b) ==> #[trigger] associates(p, q, r)
}

/// The curve has coefficients `a` and `b` of one field with an odd prime
/// modulus, so that every sum exists, and its group law is associative.
pub open spec fn is_group(a: Residue, b: Residue) -> bool {
    a.wf() && b.wf() && is_prime(a.modulus) && a.modulus > 2 && associative(a, b)
}

/// The sum of two points, where it is known to exist.
pub open spec fn sum(p: CurvePoint, q: CurvePoint) -> CurvePoint {
    group_add(p, q).unwrap()
}

/// Up to three copies, double-and-add yields what adding one at a time
/// does, wherever it yields anything.
pub proof fn lemma_scalar_mul_up_to_three(p: CurvePoint, k: nat)
    requires
        p.wf(),
        k <= 3,
        scalar_mul(p, k) is Ok,
    ensures
        scalar_mul(p, k) == repeated_add(p, k),
{
    reveal_with_fuel(double_and_add, 3);
    reveal_with_fuel(repeated_add, 4);
    if k >= 1 {
        lemma_group_add_closed(p, p);
        if k == 3 {
            lemma_group_add_commutes(p, sum(p, p));
        }
    }
}

/// In a group, the sum of two points of the curve is a point of the curve.
proof fn lemma_sum(p: CurvePoint, q: CurvePoint, a: Residue, b: Residue)
    requires
        is_group(a, b),
        lies_on(p, a, b),
        lies_on(q, a, b),
    ensures
        group_add(p, q) == Ok::<CurvePoint, EccError>(sum(p, q)),
        lies_on(sum(p, q), a, b),
{
    lemma_group_add_defined(p, q);
    lemma_group_add_closed(p, q);
}

/// In a group, sums of three points can be taken in either order.
proof fn lemma_assoc(p: CurvePoint, q: CurvePoint, r: CurvePoint, a: Residue, b: Residue)
    requires
        is_group(a, b),
        lies_on(p, a, b),
        lies_on(q, a, b),
        lies_on(r, a, b),
    ensures
        sum(sum(p, q), r) == sum(p, sum(q, r)),
{
    lemma_sum(p, q, a, b);
    lemma_sum(q, r, a, b);
    assert(associates(p, q, r));
}

/// In a group, every sum of copies of a point exists and is a point of
/// the curve.
proof fn lemma_repeated_add_defined(p: CurvePoint, k: nat, a: Residue, b: Residue)
    requires
        is_group(a, b),
        lies_on(p, a, b),
    ensures
        repeated_add(p, k) is Ok,
        lies_on(repeated_add(p, k).unwrap(), a, b),
    decreases k,
{
    if k > 0 {
        lemma_repeated_add_defined(p, (k - 1) as nat, a, b);
        lemma_sum(repeated_add(p, (k - 1) as nat).unwrap(), p, a, b);
    }
}

/// In a group, a point added to `k` copies of itself is `k + 1` copies.
proof fn lemma_one_more(p: CurvePoint, k: nat, a: Residue, b: Residue)
    requires
        is_group(a, b),
        lies_on(p, a, b),
    ensures
        sum(p, repeated_add(p, k).unwrap()) == repeated_add(p, k + 1).unwrap(),
    decreases k,
{
    reveal_with_fuel(repeated_add, 2);
    lemma_repeated_add_defined(p, k, a, b);
    if k > 0 {
        let less = repeated_add(p, (k - 1) as nat).unwrap();
        lemma_repeated_add_defined(p, (k - 1) as nat, a, b);
        lemma_one_more(p, (k - 1) as nat, a, b);
        lemma_assoc(p, less, p, a, b);
    }
}

/// In a group, `k` copies of twice a point are `2 * k` copies of the
/// point.
proof fn lemma_copies_of_double(p: CurvePoint, k: nat, a: Residue, b: Residue)
    requires
        is_group(a, b),
        lies_on(p, a, b),
    ensures
        repeated_add(sum(p, p), k) == repeated_add(p, 2 * k),
    decreases k,
{
    reveal_with_fuel(repeated_add, 3);
    lemma_sum(p, p, a, b);
    if k > 0 {
        let j = (k - 1) as nat;
        lemma_copies_of_double(p, j, a, b);
        lemma_repeated_add_defined(p, 2 * j, a, b);
        lemma_repeated_add_defined(p, 2 * j + 1, a, b);
        let even = repeated_add(p, 2 * j).unwrap();
        lemma_sum(even, p, a, b);
        lemma_sum(sum(even, p), p, a, b);
        lemma_sum(even, sum(p, p), a, b);
        lemma_assoc(even, p, p, a, b);
        assert(repeated_add(p, 2 * j + 1) == group_add(even, p));
        assert(repeated_add(p, 2 * k) == group_add(sum(even, p), p));
    }
}

/// In a group, double-and-add adds `k` copies of the running point to the
/// accumulator.
proof fn lemma_double_and_add_sums(
    acc: CurvePoint,
    cur: CurvePoint,
    k: nat,
    a: Residue,
    b: Residue,
)
    requires
        is_group(a, b),
        lies_on(acc, a, b),
        lies_on(cur, a, b),
    ensures
        double_and_add(acc, cur, k) == group_add(acc, repeated_add(cur, k).unwrap()),
    decreases k,
{
    lemma_repeated_add_defined(cur, k, a, b);
    if k > 0 {
        let j = k / 2;
        let twice = sum(cur, cur);
        lemma_sum(cur, cur, a, b);
        lemma_sum(acc, cur, a, b);
        lemma_copies_of_double(cur, j, a, b);
        lemma_repeated_add_defined(cur, 2 * j, a, b);
        let even = repeated_add(cur, 2 * j).unwrap();
        if k % 2 == 1 {
            lemma_double_and_add_sums(sum(acc, cur), twice, j, a, b);
            lemma_sum(sum(acc, cur), even, a, b);
            lemma_sum(cur, even, a, b);
            lemma_sum(acc, sum(cur, even), a, b);
            lemma_assoc(acc, cur, even, a, b);
            lemma_one_more(cur, 2 * j, a, b);
            assert(k == 2 * j + 1);
        } else {
            lemma_double_and_add_sums(acc, twice, j, a, b);
            assert(k == 2 * j);
        }
    }
}

/// Wherever the group law is associative and every sum exists,
/// double-and-add yields the sum of `k` copies of the point.
pub proof fn lemma_scalar_mul_is_repeated_add(p: CurvePoint, k: nat)
    requires
        p.wf(),
        is_group(p.a(), p.b()),
    ensures
        scalar_mul(p, k) == repeated_add(p, k),
{
    lemma_double_and_add_sums(p.origin(), p, k, p.a(), p.b());
    lemma_repeated_add_defined(p, k, p.a(), p.b());
}

} // verus!

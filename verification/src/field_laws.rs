//! What holds of the arithmetic of residues, for every field and every
//! element of it.

use crate::error::EccError;
use crate::field::Residue;
use crate::modular::{
    inverse, invertible, is_prime, lemma_cong_rem, lemma_cong_small, lemma_inverse_cancels,
    lemma_inverse_exists, lemma_prime_invertible,
};
use vstd::arithmetic::div_mod::{lemma_mul_mod_noop_general, lemma_small_mod};
use vstd::prelude::*;

verus! {

/// Closure: the sum, the difference and the product of two residues of a
/// field are residues of the same field.
pub proof fn lemma_ring_closed(x: Residue, y: Residue)
    requires
        x.wf(),
        y.wf(),
        x.modulus == y.modulus,
    ensures
        x.plus(y).wf() && x.plus(y).modulus == x.modulus,
        x.minus(y).wf() && x.minus(y).modulus == x.modulus,
        x.times(y).wf() && x.times(y).modulus == x.modulus,
{
    lemma_cong_rem(x.value + y.value, x.modulus);
    lemma_cong_rem(x.value - y.value, x.modulus);
    lemma_cong_rem(x.value * y.value, x.modulus);
}

/// Adding zero changes nothing, and every element minus itself is zero.
pub proof fn lemma_additive_identity(x: Residue)
    requires
        x.wf(),
    ensures
        x.plus(Residue::zero(x.modulus)) == x,
        x.minus(x) == Residue::zero(x.modulus),
{
    lemma_small_mod(x.value as nat, x.modulus as nat);
    lemma_small_mod(0, x.modulus as nat);
}

/// Division by zero fails, whatever is divided.
pub proof fn lemma_division_by_zero(x: Residue)
    ensures
        x.quotient(Residue::zero(x.modulus)) == Err::<Residue, EccError>(EccError::DivisionByZero),
{
}

/// Residues of different fields cannot be divided.
pub proof fn lemma_division_across_fields(x: Residue, y: Residue)
    requires
        x.modulus != y.modulus,
    ensures
        x.quotient(y) == Err::<Residue, EccError>(EccError::FieldMismatch),
{
}

/// Modulo a prime every divisor but zero divides: division is total on
/// the nonzero elements of a field.
pub proof fn lemma_division_defined(x: Residue, y: Residue)
    requires
        is_prime(y.modulus),
        x.modulus == y.modulus,
        y.wf(),
        y.value != 0,
    ensures
        x.quotient(y) == Ok::<Residue, EccError>(x.over(y)),
{
    lemma_small_mod(y.value as nat, y.modulus as nat);
    lemma_prime_invertible(y.value, y.modulus);
}

/// Division undoes multiplication: where `y` has a reciprocal, `x / y`
/// times `y` is `x`, and `x / y` is the only residue of which this holds.
pub proof fn lemma_quotient_times_divisor(x: Residue, y: Residue)
    requires
        x.wf(),
        y.wf(),
        x.modulus == y.modulus,
        invertible(y.value, y.modulus),
    ensures
        x.over(y).wf(),
        x.over(y).times(y) == x,
        y.times(x.over(y)) == x,
        forall|q: Residue|
            q.wf() && q.modulus == x.modulus && #[trigger] q.times(y) == x ==> q == x.over(y),
{
    let m = x.modulus;
    let w = inverse(y.value, m);
    lemma_inverse_exists(y.value, m);
    let q = x.over(y);
    lemma_cong_rem(x.value * w, m);
    // (x * w % m) * y ~ (x * w) * y ~ x
    lemma_inverse_cancels(x.value, y.value, w, m);
    lemma_mul_mod_noop_general(x.value * w, y.value, m);
    lemma_small_mod(x.value as nat, m as nat);
    assert(q.value * y.value == y.value * q.value) by (nonlinear_arith);
    assert forall|p: Residue|
        p.wf() && p.modulus == x.modulus && #[trigger] p.times(y) == x implies p == x.over(y) by {
        // p ~ (p * y) * w ~ x * w
        lemma_inverse_cancels(p.value, y.value, w, m);
        lemma_mul_mod_noop_general(p.value * y.value, w, m);
        lemma_cong_small(p.value, q.value, m);
    }
}

/// In a field, every nonzero element has a reciprocal, one divided by the
/// element, and their product is one.
pub proof fn lemma_reciprocal(x: Residue)
    requires
        is_prime(x.modulus),
        x.wf(),
        x.value != 0,
    ensures
        Residue::one(x.modulus).quotient(x) is Ok,
        x.times(Residue::one(x.modulus).over(x)) == Residue::one(x.modulus),
{
    let m = x.modulus;
    lemma_small_mod(1, m as nat);
    lemma_division_defined(Residue::one(m), x);
    lemma_small_mod(x.value as nat, m as nat);
    lemma_prime_invertible(x.value, m);
    lemma_quotient_times_divisor(Residue::one(m), x);
}

/// In a field, a nonzero element divided by itself is one, and so an
/// element times its quotient by itself is the element: that product is
/// one for the element one and for no other.
pub proof fn lemma_self_quotient(x: Residue)
    requires
        is_prime(x.modulus),
        x.wf(),
        x.value != 0,
    ensures
        x.quotient(x) == Ok::<Residue, EccError>(Residue::one(x.modulus)),
        x.times(x.over(x)) == x,
        x.times(x.over(x)) == Residue::one(x.modulus) <==> x.value == 1,
{
    let m = x.modulus;
    lemma_division_defined(x, x);
    lemma_small_mod(x.value as nat, m as nat);
    lemma_prime_invertible(x.value, m);
    lemma_small_mod(1, m as nat);
    lemma_quotient_times_divisor(x, x);
}

} // verus!

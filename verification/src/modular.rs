//! Arithmetic of residues modulo a positive integer: congruences,
//! reciprocals, greatest common divisors and primality.
//!
//! Everything here is stated over mathematical integers. Two integers `x`
//! and `y` are congruent modulo `m` when `x % m == y % m`.

use vstd::arithmetic::div_mod::{
    lemma_add_mod_noop, lemma_fundamental_div_mod, lemma_fundamental_div_mod_converse,
    lemma_mod_equivalence, lemma_mod_multiples_vanish, lemma_mod_bound, lemma_mod_self_0,
    lemma_mod_twice, lemma_mul_mod_noop_general, lemma_small_mod, lemma_sub_mod_noop,
};
use vstd::prelude::*;

verus! {

/// `w` is the reciprocal of `v` modulo `m`: it lies in `[0, m)` and
/// `v * w` is congruent to one. Modulo one, zero is its own reciprocal.
pub open spec fn is_inverse(v: int, w: int, m: int) -> bool {
    0 <= w < m && (v * w) % m == 1int % m
}

/// `v` has a reciprocal modulo `m`.
pub open spec fn invertible(v: int, m: int) -> bool {
    exists|w: int| is_inverse(v, w, m)
}

/// The reciprocal of `v` modulo `m`, where there is one.
pub open spec fn inverse(v: int, m: int) -> int {
    choose|w: int| is_inverse(v, w, m)
}

/// The greatest common divisor, by Euclid's recursion.
pub open spec fn gcd(a: nat, b: nat) -> nat
    decreases b,
{
    if b == 0 {
        a
    } else {
        gcd(b, (a % b) as nat)
    }
}

/// `p` is a prime number.
pub open spec fn is_prime(p: int) -> bool {
    p >= 2 && forall|d: int| 1 < d < p ==> #[trigger] (p % d) != 0
}

/// Sums of congruent integers are congruent.
pub proof fn lemma_cong_add(a: int, b: int, c: int, d: int, m: int)
    requires
        m > 0,
        a % m == b % m,
        c % m == d % m,
    ensures
        (a + c) % m == (b + d) % m,
{
    lemma_add_mod_noop(a, c, m);
    lemma_add_mod_noop(b, d, m);
}

/// Differences of congruent integers are congruent.
pub proof fn lemma_cong_sub(a: int, b: int, c: int, d: int, m: int)
    requires
        m > 0,
        a % m == b % m,
        c % m == d % m,
    ensures
        (a - c) % m == (b - d) % m,
{
    lemma_sub_mod_noop(a, c, m);
    lemma_sub_mod_noop(b, d, m);
}

/// Products of congruent integers are congruent.
pub proof fn lemma_cong_mul(a: int, b: int, c: int, d: int, m: int)
    requires
        m > 0,
        a % m == b % m,
        c % m == d % m,
    ensures
        (a * c) % m == (b * d) % m,
{
    lemma_mul_mod_noop_general(a, c, m);
    lemma_mul_mod_noop_general(b, d, m);
}

/// An integer is congruent to its remainder.
pub proof fn lemma_cong_rem(a: int, m: int)
    requires
        m > 0,
    ensures
        (a % m) % m == a % m,
        0 <= a % m < m,
{
    lemma_mod_twice(a, m);
    lemma_mod_bound(a, m);
}

/// Two residues in `[0, m)` that are congruent are equal.
pub proof fn lemma_cong_small(a: int, b: int, m: int)
    requires
        0 <= a < m,
        0 <= b < m,
        a % m == b % m,
    ensures
        a == b,
{
    lemma_small_mod(a as nat, m as nat);
    lemma_small_mod(b as nat, m as nat);
}

/// The remainder of a negative integer, from that of its opposite.
pub proof fn lemma_rem_of_negative(x: int, m: int)
    requires
        m > 0,
    ensures
        (-x) % m == if x % m == 0 {
            0
        } else {
            m - x % m
        },
{
    lemma_fundamental_div_mod(x, m);
    lemma_mod_bound(x, m);
    let q = x / m;
    let r = x % m;
    assert(x == m * q + r);
    if r == 0 {
        assert(-x == (-q) * m + 0) by (nonlinear_arith)
            requires
                x == m * q + r,
                r == 0,
        ;
        lemma_fundamental_div_mod_converse(-x, m, -q, 0);
    } else {
        assert(-x == (-q - 1) * m + (m - r)) by (nonlinear_arith)
            requires
                x == m * q + r,
        ;
        lemma_fundamental_div_mod_converse(-x, m, -q - 1, m - r);
    }
}

/// A reciprocal cancels its factor: `(x * v) * w` is congruent to `x`.
pub proof fn lemma_inverse_cancels(x: int, v: int, w: int, m: int)
    requires
        m > 0,
        is_inverse(v, w, m),
    ensures
        ((x * v) * w) % m == x % m,
        ((x * w) * v) % m == x % m,
{
    assert((x * v) * w == x * (v * w)) by (nonlinear_arith);
    assert((x * w) * v == x * (v * w)) by (nonlinear_arith);
    lemma_cong_mul(x, x, v * w, 1, m);
    assert(x * 1 == x);
}

/// A residue has at most one reciprocal.
pub proof fn lemma_inverse_unique(v: int, w1: int, w2: int, m: int)
    requires
        is_inverse(v, w1, m),
        is_inverse(v, w2, m),
    ensures
        w1 == w2,
{
    // w1 ~ w1 * (v * w2) == (w1 * v) * w2 ~ w2
    lemma_inverse_cancels(w1, v, w2, m);
    lemma_inverse_cancels(w2, v, w1, m);
    assert((w1 * v) * w2 == (w2 * v) * w1) by (nonlinear_arith);
    lemma_cong_small(w1, w2, m);
}

/// Where a reciprocal exists, `inverse` is it.
pub proof fn lemma_inverse_exists(v: int, m: int)
    requires
        invertible(v, m),
    ensures
        is_inverse(v, inverse(v, m), m),
{
}

/// Any reciprocal of `v` is the one that `inverse` names.
pub proof fn lemma_inverse_is(v: int, w: int, m: int)
    requires
        is_inverse(v, w, m),
    ensures
        invertible(v, m),
        inverse(v, m) == w,
{
    lemma_inverse_unique(v, w, inverse(v, m), m);
}

/// Congruent residues have the same reciprocal.
pub proof fn lemma_inverse_congruent(v1: int, v2: int, m: int)
    requires
        m > 0,
        v1 % m == v2 % m,
        invertible(v1, m),
    ensures
        invertible(v2, m),
        inverse(v2, m) == inverse(v1, m),
{
    let u = inverse(v1, m);
    lemma_cong_mul(v1, v2, u, u, m);
    lemma_inverse_is(v2, u, m);
}

/// The reciprocal of the opposite is the opposite of the reciprocal.
pub proof fn lemma_inverse_of_opposite(v: int, m: int)
    requires
        m > 0,
        invertible(v, m),
    ensures
        invertible(-v, m),
        inverse(-v, m) == (-inverse(v, m)) % m,
{
    let u = inverse(v, m);
    let w = (-u) % m;
    lemma_cong_rem(-u, m);
    lemma_cong_mul(-v, -v, w, -u, m);
    assert((-v) * (-u) == v * u) by (nonlinear_arith);
    lemma_inverse_is(-v, w, m);
}

/// The greatest common divisor of two naturals, not both zero, is positive
/// and divides each of them.
pub proof fn lemma_gcd_divides(a: nat, b: nat)
    requires
        a > 0 || b > 0,
    ensures
        gcd(a, b) > 0,
        (a as int) % (gcd(a, b) as int) == 0,
        (b as int) % (gcd(a, b) as int) == 0,
    decreases b,
{
    if b == 0 {
        lemma_mod_self_0(a as int);
        lemma_small_mod(0, a);
    } else {
        let r = (a % b) as nat;
        lemma_gcd_divides(b, r);
        let g = gcd(b, r) as int;
        let q = (a as int) / (b as int);
        lemma_fundamental_div_mod(a as int, b as int);
        lemma_small_mod(0, g as nat);
        lemma_cong_mul(b as int, 0, q, q, g);
        assert(0 * q == 0);
        lemma_cong_add(b * q, 0, r as int, 0, g);
    }
}

/// Bezout's identity: the greatest common divisor of `a` and `b` is an
/// integer combination of them. The result holds the two coefficients.
pub proof fn lemma_bezout(a: nat, b: nat) -> (c: (int, int))
    ensures
        a * c.0 + b * c.1 == gcd(a, b),
    decreases b,
{
    if b == 0 {
        (1, 0)
    } else {
        let r = (a % b) as nat;
        let (x, y) = lemma_bezout(b, r);
        let q = (a as int) / (b as int);
        lemma_fundamental_div_mod(a as int, b as int);
        assert(a * y + b * (x - q * y) == b * x + (a - b * q) * y) by (nonlinear_arith);
        (y, x - q * y)
    }
}

/// A residue that is coprime to the modulus has a reciprocal.
pub proof fn lemma_coprime_invertible(v: int, m: int)
    requires
        m > 0,
        gcd(m as nat, (v % m) as nat) == 1,
    ensures
        invertible(v, m),
{
    let r = v % m;
    lemma_cong_rem(v, m);
    let (x, y) = lemma_bezout(m as nat, r as nat);
    let w = y % m;
    lemma_cong_rem(y, m);
    lemma_cong_mul(v, r, w, y, m);
    assert(r * y == m * (-x) + 1) by (nonlinear_arith)
        requires
            m * x + r * y == 1,
    ;
    lemma_mod_multiples_vanish(-x, 1, m);
    assert(is_inverse(v, w, m));
}

/// A residue that has a reciprocal is coprime to the modulus.
pub proof fn lemma_invertible_coprime(v: int, m: int)
    requires
        m > 0,
        invertible(v, m),
    ensures
        gcd(m as nat, (v % m) as nat) == 1,
{
    let w = inverse(v, m);
    let r = v % m;
    lemma_cong_rem(v, m);
    lemma_gcd_divides(m as nat, r as nat);
    let g = gcd(m as nat, r as nat) as int;
    // r * w is congruent to one modulo m, so it is one plus a multiple of m
    lemma_cong_mul(r, v, w, w, m);
    lemma_mod_equivalence(r * w, 1, m);
    let k = (r * w - 1) / m;
    lemma_fundamental_div_mod(r * w - 1, m);
    assert(1 == r * w - m * k);
    // g divides r and m, hence r * w - m * k
    lemma_small_mod(0, g as nat);
    lemma_cong_mul(r, 0, w, w, g);
    lemma_cong_mul(m, 0, k, k, g);
    assert(0 * w == 0 && 0 * k == 0);
    lemma_cong_sub(r * w, 0, m * k, 0, g);
    assert(1int % g == 0);
    if g > 1 {
        lemma_small_mod(1, g as nat);
    }
}

/// Modulo a prime, every residue that is not congruent to zero has a
/// reciprocal.
pub proof fn lemma_prime_invertible(v: int, p: int)
    requires
        is_prime(p),
        v % p != 0,
    ensures
        invertible(v, p),
{
    let r = v % p;
    lemma_cong_rem(v, p);
    lemma_gcd_divides(p as nat, r as nat);
    let g = gcd(p as nat, r as nat) as int;
    if g > r {
        lemma_small_mod(r as nat, g as nat);
    }
    assert(g <= r < p);
    if g > 1 {
        assert(p % g != 0);
    }
    lemma_coprime_invertible(v, p);
}

} // verus!

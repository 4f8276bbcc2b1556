//! Elements of the ring of integers modulo a positive modulus, which is a
//! field when the modulus is prime.
//!
//! A [`FieldElement`] can only be built through [`FieldElement::new`] and
//! [`FieldElement::zero`], and every operation returns a fresh element of the
//! same field, so a value always lies in `[0, modulus)`.

use crate::error::EccError;
use crate::modular::{
    gcd, inverse, invertible, is_inverse, lemma_cong_mul, lemma_cong_rem, lemma_cong_sub,
    lemma_invertible_coprime, lemma_inverse_is, lemma_rem_of_negative,
};
use vstd::arithmetic::div_mod::{
    lemma_fundamental_div_mod, lemma_fundamental_div_mod_converse, lemma_mod_self_0,
    lemma_mul_mod_noop_general, lemma_small_mod,
};
use vstd::arithmetic::power::{
    lemma_pow0, lemma_pow1, lemma_pow_adds, lemma_pow_mod_noop, lemma_pow_multiplies,
    lemma_square_is_pow2, pow,
};
use vstd::prelude::*;

verus! {

/// The mathematical reading of a field element: a residue and the modulus
/// of the field it belongs to.
pub struct Residue {
    pub value: int,
    pub modulus: int,
}

impl Residue {
    /// The residue lies in `[0, modulus)`; in particular the modulus is
    /// positive.
    pub open spec fn wf(self) -> bool {
        0 <= self.value < self.modulus
    }

    /// The additive identity of the field with modulus `m`.
    pub open spec fn zero(m: int) -> Residue {
        Residue { value: 0, modulus: m }
    }

    /// The multiplicative identity of the field with modulus `m`; it
    /// coincides with zero when `m` is one.
    pub open spec fn one(m: int) -> Residue {
        Residue { value: 1int % m, modulus: m }
    }

    /// The sum of two residues of one field.
    pub open spec fn plus(self, other: Residue) -> Residue {
        Residue { value: (self.value + other.value) % self.modulus, modulus: self.modulus }
    }

    /// The difference of two residues of one field.
    pub open spec fn minus(self, other: Residue) -> Residue {
        Residue { value: (self.value - other.value) % self.modulus, modulus: self.modulus }
    }

    /// The product of two residues of one field.
    pub open spec fn times(self, other: Residue) -> Residue {
        Residue { value: (self.value * other.value) % self.modulus, modulus: self.modulus }
    }

    /// The residue raised to the power `e`.
    pub open spec fn raised(self, e: nat) -> Residue {
        Residue { value: pow(self.value, e) % self.modulus, modulus: self.modulus }
    }

    /// The residue multiplied by the reciprocal of `other`, where `other`
    /// has one.
    pub open spec fn over(self, other: Residue) -> Residue {
        Residue {
            value: (self.value * inverse(other.value, self.modulus)) % self.modulus,
            modulus: self.modulus,
        }
    }

    /// The residue multiplied by the integer `c`.
    pub open spec fn scaled(self, c: int) -> Residue {
        Residue { value: (self.value * c) % self.modulus, modulus: self.modulus }
    }

    /// What division by `other` yields: the quotient, or the reason why
    /// there is none.
    pub open spec fn quotient(self, other: Residue) -> Result<Residue, EccError> {
        if self.modulus != other.modulus {
            Err(EccError::FieldMismatch)
        } else if other.value == 0 {
            Err(EccError::DivisionByZero)
        } else if !invertible(other.value, self.modulus) {
            Err(EccError::NoInverse)
        } else {
            Ok(self.over(other))
        }
    }
}

/// An element of the field of integers modulo `modulus`.
#[derive(Clone, Copy, Debug, PartialEq, Eq, Structural)]
pub struct FieldElement {
    value: i32,
    modulus: i32,
}

impl View for FieldElement {
    type V = Residue;

    closed spec fn view(&self) -> Residue {
        Residue { value: self.value as int, modulus: self.modulus as int }
    }
}

impl FieldElement {
    /// Every element is a residue of its field.
    #[verifier::type_invariant]
    pub open spec fn wf(self) -> bool {
        self@.wf()
    }

    /// Two elements are the same exactly when their residues and moduli
    /// are.
    pub proof fn lemma_view_injective(self, other: FieldElement)
        ensures
            self@ == other@ <==> self == other,
    {
    }

    /// Builds the element `value` of the field with the given modulus.
    /// This is the one place where membership is checked.
    pub fn new(value: i32, modulus: i32) -> (r: Result<FieldElement, EccError>)
        ensures
            0 <= value < modulus ==> r is Ok && r.unwrap()@ == (Residue {
                value: value as int,
                modulus: modulus as int,
            }),
            !(0 <= value < modulus) ==> r == Err::<FieldElement, EccError>(
                EccError::InvalidElement,
            ),
    {
        if modulus <= 0 || value < 0 || value >= modulus {
            return Err(EccError::InvalidElement);
        }
        Ok(FieldElement { value, modulus })
    }

    /// The additive identity of the field with the given modulus.
    pub fn zero(modulus: i32) -> (r: FieldElement)
        requires
            modulus > 0,
        ensures
            r@ == Residue::zero(modulus as int),
    {
        FieldElement { value: 0, modulus }
    }

    /// The residue, in `[0, modulus)`.
    pub fn value(&self) -> (r: i32)
        ensures
            r == self@.value,
            0 <= r < self@.modulus,
    {
        proof {
            use_type_invariant(self);
        }
        self.value
    }

    /// The modulus of the field.
    pub fn modulus(&self) -> (r: i32)
        ensures
            r == self@.modulus,
            r > 0,
    {
        proof {
            use_type_invariant(self);
        }
        self.modulus
    }

    /// Field addition.
    pub fn add(&self, other: &FieldElement) -> (r: Result<FieldElement, EccError>)
        ensures
            self@.modulus != other@.modulus ==> r == Err::<FieldElement, EccError>(
                EccError::FieldMismatch,
            ),
            self@.modulus == other@.modulus ==> r is Ok && r.unwrap()@ == self@.plus(other@)
                && r.unwrap()@.wf(),
    {
        proof {
            use_type_invariant(self);
            use_type_invariant(other);
        }
        if self.modulus != other.modulus {
            return Err(EccError::FieldMismatch);
        }
        let sum: i64 = self.value as i64 + other.value as i64;
        let value: i64 = sum % (self.modulus as i64);
        proof {
            lemma_cong_rem(sum as int, self.modulus as int);
        }
        Ok(FieldElement { value: value as i32, modulus: self.modulus })
    }

    /// Field subtraction. A negative difference is brought back into
    /// `[0, modulus)` by adding the modulus.
    pub fn sub(&self, other: &FieldElement) -> (r: Result<FieldElement, EccError>)
        ensures
            self@.modulus != other@.modulus ==> r == Err::<FieldElement, EccError>(
                EccError::FieldMismatch,
            ),
            self@.modulus == other@.modulus ==> r is Ok && r.unwrap()@ == self@.minus(other@)
                && r.unwrap()@.wf(),
    {
        proof {
            use_type_invariant(self);
            use_type_invariant(other);
        }
        if self.modulus != other.modulus {
            return Err(EccError::FieldMismatch);
        }
        let difference: i32 = self.value - other.value;
        let value: i32 = if difference < 0 {
            difference + self.modulus
        } else {
            difference
        };
        proof {
            let m = self.modulus as int;
            if difference < 0 {
                lemma_fundamental_div_mod_converse(difference as int, m, -1, value as int);
            } else {
                lemma_small_mod(difference as nat, m as nat);
            }
        }
        Ok(FieldElement { value, modulus: self.modulus })
    }

    /// Field multiplication.
    pub fn mul(&self, other: &FieldElement) -> (r: Result<FieldElement, EccError>)
        ensures
            self@.modulus != other@.modulus ==> r == Err::<FieldElement, EccError>(
                EccError::FieldMismatch,
            ),
            self@.modulus == other@.modulus ==> r is Ok && r.unwrap()@ == self@.times(other@)
                && r.unwrap()@.wf(),
    {
        proof {
            use_type_invariant(self);
            use_type_invariant(other);
        }
        if self.modulus != other.modulus {
            return Err(EccError::FieldMismatch);
        }
        let value: i64 = mul_mod(self.value as i64, other.value as i64, self.modulus as i64);
        Ok(FieldElement { value: value as i32, modulus: self.modulus })
    }

    /// Exponentiation by repeated squaring, reducing after every
    /// multiplication.
    pub fn pow(&self, exp: i32) -> (r: Result<FieldElement, EccError>)
        ensures
            exp < 0 ==> r == Err::<FieldElement, EccError>(EccError::NegativeExponent),
            exp >= 0 ==> r is Ok && r.unwrap()@ == self@.raised(exp as nat) && r.unwrap()@.wf(),
    {
        proof {
            use_type_invariant(self);
        }
        if exp < 0 {
            return Err(EccError::NegativeExponent);
        }
        let m: i64 = self.modulus as i64;
        let mut acc: i64 = 1 % m;
        let mut base: i64 = self.value as i64;
        let mut e: i32 = exp;
        proof {
            lemma_cong_rem(1, m as int);
            lemma_mul_mod_noop_general(1, pow(self.value as int, exp as nat), m as int);
        }
        while e > 0
            invariant
                m == self.modulus,
                0 < m <= i32::MAX,
                0 <= acc < m,
                0 <= base < m,
                0 <= e,
                0 <= exp,
                (acc * pow(base as int, e as nat)) % (m as int) == pow(
                    self.value as int,
                    exp as nat,
                ) % (m as int),
            decreases e,
        {
            proof {
                lemma_square_and_multiply(acc as int, base as int, e as nat, m as int);
            }
            if e % 2 == 1 {
                acc = mul_mod(acc, base, m);
            }
            base = mul_mod(base, base, m);
            e = e / 2;
        }
        proof {
            lemma_pow0(base as int);
            lemma_small_mod(acc as nat, m as nat);
        }
        Ok(FieldElement { value: acc as i32, modulus: self.modulus })
    }

    /// Field division: multiplication by the reciprocal of `other`, which
    /// the extended Euclidean algorithm finds. Every divisor but zero has a
    /// reciprocal when the modulus is prime; for other moduli some do not.
    pub fn truediv(&self, other: &FieldElement) -> (r: Result<FieldElement, EccError>)
        ensures
            match r {
                Ok(e) => self@.quotient(other@) == Ok::<Residue, EccError>(e@) && e@.wf(),
                Err(e) => self@.quotient(other@) == Err::<Residue, EccError>(e),
            },
    {
        proof {
            use_type_invariant(self);
            use_type_invariant(other);
        }
        if self.modulus != other.modulus {
            return Err(EccError::FieldMismatch);
        }
        if other.value == 0 {
            return Err(EccError::DivisionByZero);
        }
        match mod_inverse(other.value, self.modulus) {
            None => Err(EccError::NoInverse),
            Some(w) => {
                proof {
                    lemma_inverse_is(other.value as int, w as int, self.modulus as int);
                }
                let value: i64 = mul_mod(self.value as i64, w as i64, self.modulus as i64);
                Ok(FieldElement { value: value as i32, modulus: self.modulus })
            },
        }
    }

    /// Multiplication by a plain integer, which may be negative.
    pub fn rmul(&self, coefficient: i32) -> (r: Result<FieldElement, EccError>)
        ensures
            r is Ok,
            r.unwrap()@ == self@.scaled(coefficient as int),
            r.unwrap()@.wf(),
    {
        proof {
            use_type_invariant(self);
        }
        assert(-0x4000_0000_0000_0000 <= self.value * coefficient <= 0x4000_0000_0000_0000)
            by (nonlinear_arith)
            requires
                0 <= self.value < 0x8000_0000,
                -0x8000_0000 <= coefficient < 0x8000_0000,
        ;
        let product: i64 = (self.value as i64) * (coefficient as i64);
        let value: i64 = reduce(product, self.modulus as i64);
        Ok(FieldElement { value: value as i32, modulus: self.modulus })
    }
}

/// The reciprocal of `a` modulo `m`, by the extended Euclidean algorithm:
/// the residue `w` in `[0, m)` with `a * w` congruent to one. Modulo one the
/// reciprocal is zero. There is none when `m` is not positive or when `a`
/// and `m` have a common divisor other than one.
pub fn mod_inverse(a: i32, m: i32) -> (r: Option<i32>)
    ensures
        r is Some <==> invertible(a as int, m as int),
        r is Some ==> is_inverse(a as int, r.unwrap() as int, m as int) && r.unwrap() == inverse(
            a as int,
            m as int,
        ),
{
    if m <= 0 {
        return None;
    }
    if m == 1 {
        proof {
            assert(a * 0 == 0);
            lemma_inverse_is(a as int, 0, 1);
        }
        return Some(0);
    }
    let modulus: i64 = m as i64;
    // Each remainder is `a` times its coefficient, up to a multiple of `m`.
    let mut r0: i64 = modulus;
    let mut r1: i64 = reduce(a as i64, modulus);
    let mut x0: i64 = 0;
    let mut x1: i64 = 1;
    proof {
        assert(a * 0 == 0 && a * 1 == a);
        lemma_mod_self_0(m as int);
        lemma_small_mod(0, m as nat);
        lemma_cong_rem(a as int, m as int);
    }
    while r1 != 0
        invariant
            modulus == m,
            m > 1,
            0 <= r1 < r0 <= modulus,
            0 <= x0 < modulus,
            0 <= x1 < modulus,
            (a * x0) % (m as int) == (r0 as int) % (m as int),
            (a * x1) % (m as int) == (r1 as int) % (m as int),
            gcd(r0 as nat, r1 as nat) == gcd(m as nat, ((a as int) % (m as int)) as nat),
        decreases r1,
    {
        let q: i64 = r0 / r1;
        let r2: i64 = r0 % r1;
        assert(0 <= q * x1 <= 0x4000_0000_0000_0000) by (nonlinear_arith)
            requires
                0 <= q <= r0 < 0x8000_0000,
                0 <= x1 < 0x8000_0000,
        ;
        let x2: i64 = reduce(x0 - q * x1, modulus);
        proof {
            lemma_fundamental_div_mod(r0 as int, r1 as int);
            lemma_euclid_step(a as int, x0 as int, x1 as int, r0 as int, r1 as int, q as int, m as int);
            assert(r0 - q * r1 == r2) by (nonlinear_arith)
                requires
                    r0 == r1 * q + r2,
            ;
        }
        r0 = r1;
        r1 = r2;
        x0 = x1;
        x1 = x2;
    }
    if r0 == 1 {
        proof {
            lemma_small_mod(1, m as nat);
            lemma_inverse_is(a as int, x0 as int, m as int);
        }
        Some(x0 as i32)
    } else {
        proof {
            if invertible(a as int, m as int) {
                lemma_invertible_coprime(a as int, m as int);
            }
        }
        None
    }
}

/// One round of the extended Euclidean algorithm keeps each remainder
/// congruent to `a` times its coefficient.
proof fn lemma_euclid_step(a: int, x0: int, x1: int, r0: int, r1: int, q: int, m: int)
    requires
        m > 0,
        (a * x0) % m == r0 % m,
        (a * x1) % m == r1 % m,
    ensures
        (a * ((x0 - q * x1) % m)) % m == (r0 - q * r1) % m,
{
    lemma_cong_rem(x0 - q * x1, m);
    lemma_cong_mul(a, a, (x0 - q * x1) % m, x0 - q * x1, m);
    lemma_cong_mul(q, q, a * x1, r1, m);
    lemma_cong_sub(a * x0, r0, q * (a * x1), q * r1, m);
    assert(a * (x0 - q * x1) == a * x0 - q * (a * x1)) by (nonlinear_arith);
}

/// One round of exponentiation by squaring keeps the product of the
/// accumulator and the remaining power.
proof fn lemma_square_and_multiply(acc: int, base: int, e: nat, m: int)
    requires
        m > 0,
        e > 0,
    ensures
        ((if e % 2 == 1 {
            (acc * base) % m
        } else {
            acc
        }) * pow((base * base) % m, e / 2)) % m == (acc * pow(base, e)) % m,
{
    let k = e / 2;
    let square = base * base;
    // pow(square % m, k) ~ pow(square, k) == pow(base, 2 * k)
    lemma_pow_mod_noop(square, k, m);
    lemma_square_is_pow2(base);
    lemma_pow_multiplies(base, 2, k);
    assert(pow(square, k) == pow(base, 2 * k));
    if e % 2 == 1 {
        assert(e == 2 * k + 1);
        lemma_pow_adds(base, 1, 2 * k);
        lemma_pow1(base);
        assert(pow(base, e) == base * pow(base, 2 * k));
        lemma_cong_rem(acc * base, m);
        lemma_cong_mul((acc * base) % m, acc * base, pow(square % m, k), pow(square, k), m);
        assert((acc * base) * pow(base, 2 * k) == acc * (base * pow(base, 2 * k)))
            by (nonlinear_arith);
    } else {
        assert(e == 2 * k);
        lemma_cong_mul(acc, acc, pow(square % m, k), pow(square, k), m);
    }
}

/// The product of two residues, reduced modulo `m`.
fn mul_mod(x: i64, y: i64, m: i64) -> (r: i64)
    requires
        0 <= x < m,
        0 <= y < m,
        m <= i32::MAX,
    ensures
        r == (x * y) % (m as int),
        0 <= r < m,
{
    assert(0 <= x * y < 0x4000_0000_0000_0000) by (nonlinear_arith)
        requires
            0 <= x < 0x8000_0000,
            0 <= y < 0x8000_0000,
    ;
    let product: i64 = x * y;
    proof {
        lemma_cong_rem(product as int, m as int);
    }
    product % m
}

/// The remainder of `x` modulo `m`, in `[0, m)`, for `x` of either sign.
fn reduce(x: i64, m: i64) -> (r: i64)
    requires
        m > 0,
        x > i64::MIN,
    ensures
        r == (x as int) % (m as int),
        0 <= r < m,
{
    proof {
        lemma_cong_rem(x as int, m as int);
    }
    if x >= 0 {
        x % m
    } else {
        let t: i64 = (-x) % m;
        proof {
            lemma_cong_rem(-x as int, m as int);
            lemma_rem_of_negative(-x as int, m as int);
        }
        if t == 0 {
            0
        } else {
            m - t
        }
    }
}

} // verus!

//! Finite-field arithmetic and the group of points of a Weierstrass curve
//! `y^2 = x^3 + a*x + b` over such a field.
//!
//! [`FieldElement`] is a residue modulo a positive modulus with checked
//! addition, subtraction, multiplication, exponentiation and division.
//! [`Point`] is a point of a curve over such residues, with the
//! chord-and-tangent group law and scalar multiplication by double-and-add.
//! Both are immutable values that can only be built through a constructor
//! that checks them, and every operation is proved to return what the
//! models in [`field`] and [`curve`] say, without overflow.
//!
//! The modules `field_laws`, `curve_laws` and `scalar_laws` hold what is
//! proved of those models for all inputs: closure, identities, inverses,
//! commutativity, and when a result exists.

pub mod curve;
pub mod curve_laws;
pub mod error;
pub mod field;
pub mod field_laws;
pub mod modular;
pub mod point;
pub mod scalar_laws;

pub use error::EccError;
pub use field::{mod_inverse, FieldElement};
pub use point::Point;

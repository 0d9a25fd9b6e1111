//! Prime-field arithmetic and the short-Weierstrass elliptic-curve group law,
//! over arbitrary-precision natural numbers.

pub mod closure;
pub mod curve;
pub mod field;
pub mod natural;
pub mod number_theory;

pub use curve::{EllipticCurve, Point};
pub use field::{FieldError, FiniteField};
pub use natural::Natural;

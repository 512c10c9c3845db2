//! Modular arithmetic over a large prime field.
//!
//! The crate has three parts:
//!
//! - [`arith`]: overflow-safe modular arithmetic on `u128` residues
//!   (addition, subtraction, multiplication, exponentiation, inverses via
//!   the extended Euclidean algorithm), specified against mathematical
//!   integer arithmetic.
//! - [`algebra`]: the public field abstraction, [`algebra::Field`] and
//!   [`algebra::FieldElement`], whose operations keep every element reduced
//!   into `[0, modulus)` and report non-invertible divisors and cross-field
//!   operand mixes as typed errors.
//! - [`laws`]: proved algebraic laws of the modular operations (identities,
//!   inverses, cancellation, exponentiation).

pub mod algebra;
pub mod arith;
pub mod laws;

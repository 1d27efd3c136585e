//! Prime-field and short Weierstrass elliptic-curve arithmetic.
//!
//! Field elements are `u128` values reduced into `[0, p)` for an odd modulus
//! `p`; every product is formed without wrap-around, so the full 128-bit range
//! is available.
//!
//! - [`field`]: modular exponentiation, inverse, subtraction and Euler's criterion.
//! - [`sqrt`]: modular square roots, by a closed form or by Tonelli–Shanks.
//! - [`curve`]: the group law, scalar multiplication and point order.
//! - [`enumerate`]: the full list of points of a curve over a small field.
//! - [`sampling`]: random nonsingular curves and random curve points.
//! - [`number_theory`]: Euclid's lemma and Fermat's little theorem, on which
//!   the correctness of inverses and square roots rests.
#![allow(non_snake_case)]

pub mod curve;
pub mod enumerate;
pub mod error;
pub mod field;
pub mod number_theory;
pub mod random;
pub mod sampling;
pub mod sqrt;

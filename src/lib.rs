//! Exact arithmetic on univariate polynomials whose coefficients live in an
//! abstract commutative ring: the integers, the integers modulo `n`, the
//! prime fields, and recursively polynomial rings over any of these.
//!
//! - `ring`: the `Ring`, `CommutativeRing` and `Field` interfaces; each
//!   operation is described by a spec function over element values, and the
//!   ring laws are proof obligations of every commutative ring.
//! - `integers`, `modular`: the machine integers (two's complement) and the
//!   residues modulo `n`, with a trial-division primality test for `Z/pZ`.
//! - `polynomial`: `Poly` (also known as `Polynomial`), kept in canonical form
//!   (no trailing zero coefficient), with addition, negation, subtraction,
//!   multiplication and long division over a field.
//! - `poly_laws`: the laws of polynomial arithmetic, proved from the laws of
//!   the coefficient ring; `poly_ring` makes `R[x]` a commutative ring.
//! - `euclid`: Euclidean division and the extended Euclidean algorithm.
//! - `parse`, `display`, `round_trip`: reading and writing polynomials as
//!   text, and the proof that writing then reading gives the polynomial back.
//! - `operation`: the operations a front end offers.

pub mod arith;
pub mod display;
pub mod euclid;
pub mod integers;
pub mod modular;
pub mod operation;
pub mod parse;
pub mod poly_laws;
pub mod poly_ring;
pub mod polynomial;
pub mod ring;
pub mod round_trip;

pub use display::{DisplayPart, DisplayRing};
pub use euclid::{extended_euclidean, extended_euclidean_int, EuclideanRing};
pub use integers::Integers;
pub use modular::{IntegersModuloN, IntegersModuloP};
pub use operation::{OperandRingType, Operation};
pub use parse::ParsableRing;
pub use poly_ring::PolynomialRing;
pub use polynomial::{Poly, Polynomial};
pub use ring::{CommutativeRing, Field, Ring};

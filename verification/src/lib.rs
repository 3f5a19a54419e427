//! Manipulation, calculation and evaluation of symbolic integer polynomials.
//!
//! A [`Polynomial`] is a canonical sum of [`Monomial`]s; a monomial is an
//! integer coefficient times a product of [`Composite`] factors raised to
//! powers; a factor is an identifier or the `floor`, `ceil`, `min` or `max`
//! of two polynomials. Identifiers are `u16`, coefficients `i64` and powers
//! `u8`.
//!
//! Every executable function states what it computes over the views of
//! `model`. The views are built up in `shape` (power vectors), `algebra`
//! (sums and products of polynomials), `division` (long division),
//! `functions` (`floor`, `ceil`, `min`, `max`), `eval` (evaluation),
//! `deduce` (deduction of values), `identifiers` and `code` (text); the
//! executable arithmetic stands in `monomial`, `polynomial` and
//! `operators`, the calls into the `num` crate in `numeric`. What holds of
//! the views is proved in `order`, `coefficient`, `products`, `exponent`,
//! `rank`, `termination`, `laws`, `associativity`, `remainder`,
//! `exactness`, `semantics`, `eval_laws` and `round_trip`.
pub mod algebra;
pub mod associativity;
pub mod code;
pub mod coefficient;
pub mod deduce;
pub mod division;
pub mod eval;
pub mod eval_laws;
pub mod exactness;
pub mod exponent;
pub mod functions;
pub mod identifiers;
pub mod laws;
pub mod model;
pub mod monomial;
pub mod numeric;
pub mod operators;
pub mod order;
pub mod polynomial;
pub mod primitives;
pub mod products;
pub mod rank;
pub mod remainder;
pub mod round_trip;
pub mod semantics;
pub mod shape;
pub mod termination;
pub mod traits;

pub use crate::deduce::{deduce_values, DeduceError};
pub use crate::eval::EvalError;
pub use crate::functions::{ceil, floor, max, min};
pub use crate::polynomial::{primitive, variable};
pub use crate::primitives::{Composite, Monomial, Polynomial};
pub use crate::traits::{CheckedDiv, Evaluable, IsConstant};

//! Exact linear algebra over machine integers.
//!
//! The library offers a dense row-major matrix type with the classic
//! operations — elementwise arithmetic, multiplication, transpose, trace,
//! minors, determinant by Laplace expansion, cofactor matrix, adjugate,
//! inverse (represented exactly as an adjugate with a common denominator)
//! and binary-exponentiation powers — together with a small complex-number
//! type whose closed-form operations share the same exact-arithmetic model.
//! Every operation either returns the mathematically exact result or
//! reports precisely why it could not (shape violations, out-of-range
//! indices, division by zero, or a value leaving the `i64` range).

pub mod complex;
pub mod error;
pub mod laws;
pub mod matrix;
pub mod model;

//! Exact-arithmetic core of an affine-scaling interior-point iteration for
//! linear programs in standard form (minimize c^T x subject to A x = b, x > 0).
//!
//! Every number is an exact rational, so the algebraic claims about the
//! iteration (scaling, projection, step selection) are stated and proved as
//! exact identities rather than floating-point approximations.

pub mod builder;
pub mod controller;
pub mod interior;
pub mod inverse;
pub mod matrix;
pub mod projection;
pub mod rational;

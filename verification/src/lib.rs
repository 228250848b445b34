//! Arbitrary-precision complex arithmetic over exact decimal scalars, with
//! trigonometric primitives computed from truncated Taylor series and a
//! Durand-Kerner polynomial root solver built on top of them.

pub mod rat;
pub mod bigint;
pub mod scalar;
pub mod complex;
pub mod equation;
pub mod laws;

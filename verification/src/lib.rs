//! Exact piecewise polynomial interpolation.
//!
//! Given an unordered set of 2-D control points with rational coordinates,
//! the library fits a continuous curve through them under one of three
//! models (piecewise-linear, piecewise-quadratic with a C1 join policy,
//! natural cubic spline) and evaluates that curve at arbitrary
//! x-coordinates, extrapolating beyond the knot range by a fixed clamp
//! policy.  All arithmetic is exact rational arithmetic.

pub mod rat;
pub mod spline;
pub mod laws;

//! A univariate linear-regression library over exact rational numbers.
//!
//! The library fits a straight line `y = intercept + coefficient * x` to
//! paired samples, either in closed form (ordinary least squares) or by
//! batch gradient descent, and evaluates a fit by root-mean-squared error.
//! All arithmetic is exact rational arithmetic; every operation states in
//! its contract precisely which value it returns.

pub mod rational;
pub mod stats;
pub mod regression;
pub mod gradient_descent;
pub mod laws;

use vstd::prelude::*;

verus! {

/// The ways an estimation or model operation can fail.
#[derive(Clone, Copy, Debug, PartialEq, Eq, Structural)]
pub enum RegressionError {
    /// Two sequences expected to correspond element-wise have different lengths.
    LengthMismatch,
    /// Prediction or evaluation was attempted on a model with no successful prior fit.
    NotFitted,
    /// An ordinary-least-squares fit was attempted on an x-sequence whose
    /// variance is zero (which includes the empty sample set).
    DegenerateInput,
    /// An exact intermediate value left the range representable by `Rat`.
    Overflow,
}

} // verus!

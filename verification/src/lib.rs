//! Batch gradient-descent optimization for three regression model families:
//! simple univariate linear regression, multivariate linear regression, and
//! polynomial regression over a single feature.
//!
//! All numeric values are exact fixed-point numbers: an `i128` holding the
//! real value scaled by [`fixed::SCALE`] (a billionth resolution), saturating
//! at [`fixed::BOUND`]. Every arithmetic step is specified exactly, so each
//! pipeline's cost, gradient and descent loop carries a contract that pins the
//! returned values down to the last unit.

use vstd::prelude::*;

pub mod fixed;
pub mod multi;
pub mod poly;
pub mod simple;

verus! {

/// Failures detected by input validation before any computation starts.
#[derive(Clone, Copy, Debug, PartialEq, Eq, Structural)]
pub enum RegressionError {
    /// The dataset holds zero examples, so the mean over examples is undefined.
    EmptyInput,
    /// Feature/label sequence lengths differ, or a feature vector's arity
    /// does not match the weight vector.
    ShapeMismatch,
}

/// Number of history entries recorded for a run of `num_iters` iterations:
/// one per iteration, capped at the first 100000 to bound memory.
pub open spec fn history_len(num_iters: u64) -> int {
    if num_iters <= 100000 {
        num_iters as int
    } else {
        100000int
    }
}

} // verus!

//! Error values of oracle construction, oracle queries and evaluation.

use vstd::prelude::*;

verus! {

/// What can go wrong when an oracle is built or queried.
#[derive(Debug, Clone, Copy, PartialEq, Eq, Structural)]
pub enum OracleError {
    /// The number of stored entries is not `2^dim`.
    IncorrectOracleSize,
    /// A key has `found` coordinates where `expected` were asked for.
    IncorrectOraclePointDimension { expected: usize, found: usize },
    /// A key has a coordinate that is neither zero nor one.
    NonbooleanOraclePoint,
    /// The queried point is not stored.
    PointNotFound,
}

/// What can go wrong when a multilinear extension is evaluated.
#[derive(Debug, Clone, Copy, PartialEq, Eq, Structural)]
pub enum MLEError {
    /// The evaluation point has `found` coordinates where `expected` were asked for.
    WrongDimension { expected: usize, found: usize },
    /// The two arguments of the Lagrange basis differ in length.
    InconsistentDimensions { b_dim: usize, z_dim: usize },
    /// The oracle failed during evaluation.
    Oracle(OracleError),
    /// The chosen strategy has no algorithm yet.
    StrategyNotImplemented,
}

impl MLEError {
    /// Wraps an oracle failure, as evaluation hands it on.
    pub fn from_oracle(e: OracleError) -> (r: MLEError)
        ensures
            r == MLEError::Oracle(e),
    {
        MLEError::Oracle(e)
    }
}

} // verus!

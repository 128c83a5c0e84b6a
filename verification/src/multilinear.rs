//! Oracles over the Boolean hypercube and the evaluation of their extensions.

pub mod bls12_381;
pub mod dense;
pub mod error;
pub mod field;
pub mod hypercube;
pub mod index;
pub mod lagrange;
pub mod laws;
pub mod mle;
pub mod modint;
pub mod sparse;
pub mod traits;

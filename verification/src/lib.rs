//! Evaluation of multilinear extensions of functions on the Boolean hypercube.
//!
//! A function `f: {0,1}^d -> F` is held as an oracle; its multilinear extension
//! is the unique polynomial of degree at most one in every variable that agrees
//! with `f` on the hypercube. The functions of this crate evaluate that
//! polynomial at any point of `F^d`, and Verus proves what they return.

pub mod multilinear;

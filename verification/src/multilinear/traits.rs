//! What an oracle offers, and what an evaluator of its extension owes.

use super::error::{MLEError, OracleError};
use super::field::Field;
use super::hypercube::{cube_point, point_index};
use super::lagrange::mle_value;
use vstd::arithmetic::power2::pow2;
use vstd::prelude::*;

verus! {

/// Whether the entries `e`, pairs of a point's index and the value there,
/// cover every point of the table `t` exactly once.
pub open spec fn covers<F: Field>(e: Seq<(usize, F)>, t: Seq<F>) -> bool {
    &&& e.len() == t.len()
    &&& forall|k: int|
        0 <= k < e.len() ==> (#[trigger] e[k]).0 < t.len() && e[k].1 == t[e[k].0 as int]
    &&& forall|k: int, l: int|
        0 <= k < l < e.len() ==> (#[trigger] e[k]).0 != (#[trigger] e[l]).0
}

/// A function from the Boolean hypercube `{0,1}^d` to a field, held so that
/// it can be queried point by point.
///
/// Its `table` lists the function's values by the index of the point.
pub trait BCubeMap<F: Field> {
    /// The dimension `d` of the hypercube.
    spec fn dim_spec(&self) -> nat;

    /// The values of the function, entry `i` at the point of index `i`.
    spec fn table(&self) -> Seq<F>;

    /// The dimension `d`; the table has `2^d` entries.
    fn dim(&self) -> (d: usize)
        ensures
            d == self.dim_spec(),
            self.table().len() == pow2(d as nat),
    ;

    /// The value at the point with coordinates `b`. A `b` that is no point
    /// of the hypercube is not found.
    fn query(&self, b: &[F]) -> (r: Result<F, OracleError>)
        ensures
            cube_point(b@, self.dim_spec()) ==> point_index(b@) < self.table().len() && r == Ok::<
                F,
                OracleError,
            >(self.table()[point_index(b@) as int]),
            !cube_point(b@, self.dim_spec()) ==> r == Err::<F, OracleError>(
                OracleError::PointNotFound,
            ),
    ;

    /// The value at the point of index `i`. An index of `2^d` or more is
    /// not found.
    fn query_index(&self, i: usize) -> (r: Result<F, OracleError>)
        ensures
            i < self.table().len() ==> r == Ok::<F, OracleError>(self.table()[i as int]),
            i >= self.table().len() ==> r == Err::<F, OracleError>(OracleError::PointNotFound),
    ;

    /// Every stored entry, as the index of its point and the value there:
    /// each of the `2^d` points once, in the order of the backing storage.
    fn iter(&self) -> (entries: Vec<(usize, F)>)
        ensures
            self.table().len() == pow2(self.dim_spec()),
            covers(entries@, self.table()),
    ;
}

/// The multilinear extension of an oracle, ready to be evaluated.
///
/// Whatever algorithm an implementation runs, a value that it returns is
/// the value of the extension.
pub trait MLE<F: Field, M: BCubeMap<F>> {
    /// The dimension that evaluation points must have.
    spec fn dim_spec(&self) -> usize;

    /// The oracle that is extended.
    spec fn oracle_spec(&self) -> M;

    /// The value of the extension at `z`.
    fn evaluate(&self, z: &[F]) -> (r: Result<F, MLEError>)
        ensures
            z.len() != self.dim_spec() ==> r == Err::<F, MLEError>(
                MLEError::WrongDimension { expected: self.dim_spec(), found: z.len() },
            ),
            r.is_ok() ==> self.oracle_spec().dim_spec() == z.len() && r.unwrap().value()
                == mle_value(self.oracle_spec().table(), z@),
    ;
}

} // verus!

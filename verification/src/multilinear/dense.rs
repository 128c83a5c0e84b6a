//! The dense oracle: a function on the hypercube given by the table of its
//! values, entry `i` at the point of index `i`.

use super::error::OracleError;
use super::field::{Field, UniformRand};
use super::hypercube::checked_pow2;
use super::sparse::bcube_index;
use super::traits::BCubeMap;
use vstd::arithmetic::power2::pow2;
use vstd::prelude::*;

verus! {

/// A function on the `dim`-dimensional hypercube, stored as its `2^dim`
/// values in the order of the points' indices.
pub struct DenseOracle<F: Field> {
    dim: usize,
    values: Vec<F>,
}

impl<F: Field> DenseOracle<F> {
    #[verifier::type_invariant]
    spec fn well_formed(self) -> bool {
        &&& self.values@.len() == pow2(self.dim as nat)
        &&& pow2(self.dim as nat) <= usize::MAX
    }

    /// The dimension, as stored.
    pub closed spec fn dim_value(self) -> usize {
        self.dim
    }

    /// The values, as stored.
    pub closed spec fn values_spec(self) -> Seq<F> {
        self.values@
    }

    /// The table of values, entry `i` at the point of index `i`.
    pub fn values(&self) -> (r: &Vec<F>)
        ensures
            r@ == self.table(),
    {
        &self.values
    }

    /// Builds the oracle of dimension `dim` with the table `values`, which
    /// must have `2^dim` entries.
    pub fn new(dim: usize, values: Vec<F>) -> (r: Result<DenseOracle<F>, OracleError>)
        ensures
            values.len() != pow2(dim as nat) ==> r == Err::<DenseOracle<F>, OracleError>(
                OracleError::IncorrectOracleSize,
            ),
            values.len() == pow2(dim as nat) ==> r.is_ok() && r.unwrap().dim_spec() == dim
                && r.unwrap().table() == values@,
    {
        match checked_pow2(dim) {
            Some(n) => {
                if values.len() != n {
                    return Err(OracleError::IncorrectOracleSize);
                }
            },
            None => {
                return Err(OracleError::IncorrectOracleSize);
            },
        }
        Ok(DenseOracle { dim, values })
    }

    /// The oracle of dimension `dim` with every value drawn from `rng`.
    ///
    /// Nothing is promised of the values.
    pub fn new_rand(dim: usize, rng: &mut rand::rngs::StdRng) -> (r: DenseOracle<F>) where
        F: UniformRand,

        requires
            pow2(dim as nat) <= usize::MAX,
        ensures
            r.dim_spec() == dim,
            r.table().len() == pow2(dim as nat),
    {
        let num_points = match checked_pow2(dim) {
            Some(n) => n,
            None => {
                proof {
                    assert(false);
                }
                0
            },
        };
        let mut values: Vec<F> = Vec::new();
        let mut n: usize = 0;
        while n < num_points
            invariant
                n <= num_points,
                values.len() == n,
            decreases num_points - n,
        {
            values.push(F::rand(rng));
            n += 1;
        }
        DenseOracle { dim, values }
    }
}

impl<F: Field> BCubeMap<F> for DenseOracle<F> {
    open spec fn dim_spec(&self) -> nat {
        self.dim_value() as nat
    }

    open spec fn table(&self) -> Seq<F> {
        self.values_spec()
    }

    fn dim(&self) -> (d: usize) {
        proof {
            use_type_invariant(self);
        }
        self.dim
    }

    fn query(&self, b: &[F]) -> (r: Result<F, OracleError>) {
        proof {
            use_type_invariant(self);
        }
        match bcube_index(b, self.dim) {
            Ok(i) => Ok(self.values[i]),
            Err(_) => Err(OracleError::PointNotFound),
        }
    }

    fn query_index(&self, i: usize) -> (r: Result<F, OracleError>) {
        if i < self.values.len() {
            Ok(self.values[i])
        } else {
            Err(OracleError::PointNotFound)
        }
    }

    /// The values in the order of the points' indices.
    fn iter(&self) -> (entries: Vec<(usize, F)>)
        ensures
            entries.len() == self.table().len(),
            forall|k: int|
                0 <= k < entries.len() ==> (#[trigger] entries[k]).0 == k && entries[k].1
                    == self.table()[k],
    {
        proof {
            use_type_invariant(self);
        }
        let mut out: Vec<(usize, F)> = Vec::new();
        let mut k: usize = 0;
        while k < self.values.len()
            invariant
                k <= self.values.len(),
                out.len() == k,
                forall|l: int|
                    0 <= l < k ==> (#[trigger] out@[l]).0 == l && out@[l].1 == self.values@[l],
            decreases self.values.len() - k,
        {
            out.push((k, self.values[k]));
            k += 1;
        }
        out
    }
}

} // verus!

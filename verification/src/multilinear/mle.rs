//! Evaluation of the multilinear extension of an oracle.
//!
//! The naive strategy sums, over every point of the hypercube, the oracle's
//! value at the point times the Lagrange basis polynomial of the point,
//! in `O(d * 2^d)` field operations.

use super::error::MLEError;
use super::field::{values, Field};
use super::hypercube::{bit, index_point, lemma_shift_step};
use super::lagrange::{
    basis, basis_upto, entries_sum, eq_factor, eq_poly, eq_poly_upto, factor, lemma_add_reduced,
    lemma_entries_sum_covers, lemma_mul_reduced, lemma_value_reduced, mle_value,
};
use super::traits::{BCubeMap, MLE};
pub use super::dense::DenseOracle;
pub use super::sparse::BCubeMapOracle;
use std::marker::PhantomData;
use vstd::arithmetic::power2::pow2;
use vstd::prelude::*;

verus! {

/// The hypercube point of index `n`, as `dim` field elements: coordinate `i`
/// is one where bit `i` of `n` is set and zero where it is not.
pub fn to_bcube_elt<F: Field>(dim: usize, n: usize) -> (point: Vec<F>)
    ensures
        point.len() == dim,
        values(point@) == index_point(dim as nat, n as nat),
{
    let mut point: Vec<F> = Vec::new();
    let mut rest: usize = n;
    let mut i: usize = 0;
    proof {
        vstd::arithmetic::power2::lemma2_to64();
    }
    while i < dim
        invariant
            i <= dim,
            point.len() == i,
            rest == (n as nat) / pow2(i as nat),
            forall|k: int| 0 <= k < i ==> (#[trigger] point[k]).value() == bit(n as nat, k as nat),
        decreases dim - i,
    {
        let coordinate = if rest % 2 == 1 {
            F::one()
        } else {
            F::zero()
        };
        proof {
            lemma_shift_step(n as nat, i as nat);
        }
        point.push(coordinate);
        rest = rest / 2;
        i += 1;
    }
    assert(values(point@) =~= index_point(dim as nat, n as nat));
    point
}

/// The multilinear Lagrange basis `eq(b, z)`, the product over all
/// coordinates of `b_j * z_j + (1 - b_j) * (1 - z_j)`.
///
/// Fails where the two points differ in length.
pub fn eq<F: Field>(b: &[F], z: &[F]) -> (r: Result<F, MLEError>)
    ensures
        b.len() != z.len() ==> r == Err::<F, MLEError>(
            MLEError::InconsistentDimensions { b_dim: b.len(), z_dim: z.len() },
        ),
        b.len() == z.len() ==> r.is_ok() && r.unwrap().value() == eq_poly(values(b@), values(z@))
            % F::modulus(),
{
    if b.len() != z.len() {
        return Err(MLEError::InconsistentDimensions { b_dim: b.len(), z_dim: z.len() });
    }
    let one = F::one();
    let mut acc = F::one();
    let ghost vb = values(b@);
    let ghost vz = values(z@);
    let ghost m = F::modulus();
    proof {
        lemma_value_reduced(acc);
    }
    let mut j: usize = 0;
    while j < b.len()
        invariant
            j <= b.len(),
            b.len() == z.len(),
            vb == values(b@),
            vz == values(z@),
            m == F::modulus(),
            m >= 2,
            one.value() == 1,
            acc.value() == eq_poly_upto(vb, vz, j as nat) % m,
        decreases b.len() - j,
    {
        let both = b[j].mul(&z[j]);
        let not_b = one.sub(&b[j]);
        let not_z = one.sub(&z[j]);
        let neither = not_b.mul(&not_z);
        let term = both.add(&neither);
        let next = acc.mul(&term);
        proof {
            let bj = vb[j as int];
            let zj = vz[j as int];
            lemma_value_reduced(b[j as int]);
            lemma_value_reduced(z[j as int]);
            lemma_mul_reduced(not_b.value(), not_z.value(), 1 - bj, 1 - zj, m);
            lemma_add_reduced(both.value(), neither.value(), bj * zj, (1 - bj) * (1 - zj), m);
            assert(term.value() == eq_factor(bj, zj) % m);
            lemma_mul_reduced(
                acc.value(),
                term.value(),
                eq_poly_upto(vb, vz, j as nat),
                eq_factor(bj, zj),
                m,
            );
        }
        acc = next;
        j += 1;
    }
    Ok(acc)
}

/// The complements `1 - z_j` of the coordinates of `z`, which evaluation
/// computes once for all hypercube points.
pub fn one_minus<F: Field>(z: &[F]) -> (r: Vec<F>)
    ensures
        complements(r@, z@),
{
    let one = F::one();
    let mut r: Vec<F> = Vec::new();
    let mut j: usize = 0;
    while j < z.len()
        invariant
            j <= z.len(),
            r.len() == j,
            one.value() == 1,
            forall|k: int| 0 <= k < j ==> (#[trigger] r[k]).value() == (1 - z[k].value()) % F::modulus(),
        decreases z.len() - j,
    {
        r.push(one.sub(&z[j]));
        j += 1;
    }
    r
}

/// Whether `c` holds the complement `1 - z_j` of every coordinate of `z`.
pub open spec fn complements<F: Field>(c: Seq<F>, z: Seq<F>) -> bool {
    &&& c.len() == z.len()
    &&& forall|k: int| 0 <= k < z.len() ==> (#[trigger] c[k]).value() == (1 - z[k].value()) % F::modulus()
}

/// The Lagrange basis polynomial of hypercube point `i` at `z`: the product
/// over all coordinates `j` of `z_j` where bit `j` of `i` is set and of
/// `1 - z_j` where it is not.
pub fn eq_index<F: Field>(i: usize, z: &[F], one_minus_z: &[F]) -> (r: F)
    requires
        complements(one_minus_z@, z@),
    ensures
        r.value() == basis(i as nat, values(z@)) % F::modulus(),
{
    let mut acc = F::one();
    let mut rest: usize = i;
    let ghost vz = values(z@);
    let ghost m = F::modulus();
    proof {
        lemma_value_reduced(acc);
        vstd::arithmetic::power2::lemma2_to64();
    }
    let mut j: usize = 0;
    while j < z.len()
        invariant
            j <= z.len(),
            complements(one_minus_z@, z@),
            vz == values(z@),
            m == F::modulus(),
            m >= 2,
            rest == (i as nat) / pow2(j as nat),
            acc.value() == basis_upto(i as nat, vz, j as nat) % m,
        decreases z.len() - j,
    {
        let set = rest % 2 == 1;
        let next = if set {
            acc.mul(&z[j])
        } else {
            acc.mul(&one_minus_z[j])
        };
        proof {
            let zj = vz[j as int];
            lemma_value_reduced(z[j as int]);
            lemma_shift_step(i as nat, j as nat);
            assert(set == (bit(i as nat, j as nat) == 1));
            let f = if set {
                z[j as int].value()
            } else {
                one_minus_z[j as int].value()
            };
            assert(f == factor(set, zj) % m);
            lemma_mul_reduced(acc.value(), f, basis_upto(i as nat, vz, j as nat), factor(set, zj), m);
        }
        acc = next;
        rest = rest / 2;
        j += 1;
    }
    acc
}

/// The sum of `value * basis(index, z)` over a list of oracle entries.
///
/// Whatever the list holds, the result is that sum: which points the list
/// covers is the oracle's business.
pub fn weighted_sum<F: Field>(entries: &Vec<(usize, F)>, z: &[F]) -> (r: F)
    ensures
        r.value() == entries_sum(entries@, values(z@)) % F::modulus(),
{
    let one_minus_z = one_minus(z);
    let mut acc = F::zero();
    let ghost vz = values(z@);
    let ghost m = F::modulus();
    proof {
        lemma_value_reduced(acc);
    }
    let mut k: usize = 0;
    while k < entries.len()
        invariant
            k <= entries.len(),
            complements(one_minus_z@, z@),
            vz == values(z@),
            m == F::modulus(),
            m >= 2,
            acc.value() == entries_sum(entries@.take(k as int), vz) % m,
        decreases entries.len() - k,
    {
        let index = entries[k].0;
        let value = entries[k].1;
        let chi = eq_index(index, z, one_minus_z.as_slice());
        let term = value.mul(&chi);
        let next = acc.add(&term);
        proof {
            let head = entries@.take(k as int);
            let upto = entries@.take(k as int + 1);
            assert(upto.drop_last() =~= head);
            assert(upto.last() == entries@[k as int]);
            lemma_value_reduced(value);
            lemma_mul_reduced(value.value(), chi.value(), value.value(), basis(index as nat, vz), m);
            lemma_add_reduced(
                acc.value(),
                term.value(),
                entries_sum(head, vz),
                value.value() * basis(index as nat, vz),
                m,
            );
        }
        acc = next;
        k += 1;
    }
    assert(entries@.take(entries.len() as int) =~= entries@);
    acc
}

/// The algorithms by which an extension can be evaluated. Only the naive
/// one is there; the others are named and return an error.
#[derive(Debug, Clone, Copy, PartialEq, Eq, Structural)]
pub enum EvaluationType {
    Naive,
    Zhu,
    Rothblum,
    Ramakrishna,
}

/// An oracle, the dimension that evaluation points must have, and the
/// strategy by which its multilinear extension is evaluated.
pub struct MultilinearExtension<F: Field, M: BCubeMap<F>> {
    pub oracle: M,
    pub dim: usize,
    pub strategy: EvaluationType,
    pub _phantom: PhantomData<F>,
}

impl<F: Field, M: BCubeMap<F>> MultilinearExtension<F, M> {
    /// Puts the three parts together. Nothing is checked here: a `dim` that
    /// is not the oracle's shows when the extension is evaluated.
    pub fn new(oracle: M, dim: usize, strategy: EvaluationType) -> (r: Self)
        ensures
            r.oracle == oracle,
            r.dim == dim,
            r.strategy == strategy,
    {
        MultilinearExtension { oracle, dim, strategy, _phantom: PhantomData }
    }

    /// The sum, over every point of the hypercube, of the oracle's value
    /// there times the Lagrange basis polynomial of the point at `z`.
    fn naive(&self, z: &[F]) -> (r: Result<F, MLEError>)
        ensures
            self.oracle.dim_spec() != z.len() ==> r == Err::<F, MLEError>(
                MLEError::InconsistentDimensions {
                    b_dim: self.oracle.dim_spec() as usize,
                    z_dim: z.len(),
                },
            ),
            self.oracle.dim_spec() == z.len() ==> r.is_ok() && r.unwrap().value() == mle_value(
                self.oracle.table(),
                z@,
            ),
    {
        let oracle_dim = self.oracle.dim();
        if oracle_dim != z.len() {
            return Err(MLEError::InconsistentDimensions { b_dim: oracle_dim, z_dim: z.len() });
        }
        let entries = self.oracle.iter();
        proof {
            lemma_entries_sum_covers(entries@, self.oracle.table(), values(z@));
        }
        Ok(weighted_sum(&entries, z))
    }
}

impl<F: Field, M: BCubeMap<F>> MLE<F, M> for MultilinearExtension<F, M> {
    open spec fn dim_spec(&self) -> usize {
        self.dim
    }

    open spec fn oracle_spec(&self) -> M {
        self.oracle
    }

    /// The value of the extension at `z`, which must have `dim` coordinates.
    ///
    /// The length of `z` is looked at first, then the strategy; the naive
    /// strategy then fails only where the oracle's own dimension is not
    /// that of `z`.
    fn evaluate(&self, z: &[F]) -> (r: Result<F, MLEError>)
        ensures
            z.len() == self.dim && self.strategy != EvaluationType::Naive ==> r == Err::<
                F,
                MLEError,
            >(MLEError::StrategyNotImplemented),
            z.len() == self.dim && self.strategy == EvaluationType::Naive && self.oracle.dim_spec()
                != z.len() ==> r == Err::<F, MLEError>(
                MLEError::InconsistentDimensions {
                    b_dim: self.oracle.dim_spec() as usize,
                    z_dim: z.len(),
                },
            ),
            z.len() == self.dim && self.strategy == EvaluationType::Naive && self.oracle.dim_spec()
                == z.len() ==> r.is_ok(),
    {
        if z.len() != self.dim {
            return Err(MLEError::WrongDimension { expected: self.dim, found: z.len() });
        }
        match self.strategy {
            EvaluationType::Naive => self.naive(z),
            EvaluationType::Zhu => Err(MLEError::StrategyNotImplemented),
            EvaluationType::Rothblum => Err(MLEError::StrategyNotImplemented),
            EvaluationType::Ramakrishna => Err(MLEError::StrategyNotImplemented),
        }
    }
}

} // verus!

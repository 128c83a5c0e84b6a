//! The sparse oracle: a function on the hypercube given by explicit entries,
//! each a point with Boolean coordinates and the value there.

use super::error::OracleError;
use super::field::{is_bit, Field, UniformRand};
use super::hypercube::{
    checked_pow2, cube_point, lemma_full_set, lemma_point_index_bits, point_index,
    point_index_upto,
};
use super::index::{index_contents, index_get, index_insert, index_new, PointIndex};
use super::traits::BCubeMap;
use vstd::arithmetic::power2::{lemma_pow2_strictly_increases, lemma_pow2_unfold, pow2};
use vstd::prelude::*;

verus! {

/// What is wrong with one key of a `dim`-dimensional oracle, if anything:
/// its length is looked at first, then its coordinates.
pub open spec fn key_error<F: Field>(key: Seq<F>, dim: usize) -> Option<OracleError> {
    if key.len() != dim {
        Some(OracleError::IncorrectOraclePointDimension { expected: dim, found: key.len() as usize })
    } else if !cube_point(key, dim as nat) {
        Some(OracleError::NonbooleanOraclePoint)
    } else {
        None
    }
}

/// The index of the hypercube point with coordinates `b`, or what is wrong
/// with `b` as a point of the `dim`-dimensional hypercube.
pub fn bcube_index<F: Field>(b: &[F], dim: usize) -> (r: Result<usize, OracleError>)
    requires
        pow2(dim as nat) <= usize::MAX,
    ensures
        match key_error(b@, dim) {
            Some(e) => r == Err::<usize, OracleError>(e),
            None => point_index(b@) < pow2(dim as nat) && r == Ok::<usize, OracleError>(
                point_index(b@) as usize,
            ),
        },
{
    if b.len() != dim {
        return Err(OracleError::IncorrectOraclePointDimension { expected: dim, found: b.len() });
    }
    let mut index: usize = 0;
    let mut weight: usize = 1;
    let mut j: usize = 0;
    proof {
        vstd::arithmetic::power2::lemma2_to64();
    }
    while j < dim
        invariant
            j <= dim,
            b.len() == dim,
            pow2(dim as nat) <= usize::MAX,
            weight == pow2(j as nat),
            index == point_index_upto(b@, j as nat),
            forall|k: int| 0 <= k < j ==> is_bit(#[trigger] b@[k]),
        decreases dim - j,
    {
        proof {
            lemma_point_index_bits(b@, j as nat);
            lemma_pow2_unfold((j + 1) as nat);
            if j + 1 < dim {
                lemma_pow2_strictly_increases((j + 1) as nat, dim as nat);
            }
        }
        if b[j].is_one() {
            index = index + weight;
        } else if !b[j].is_zero() {
            assert(!is_bit(b@[j as int]));
            return Err(OracleError::NonbooleanOraclePoint);
        }
        weight = weight * 2;
        j += 1;
    }
    proof {
        lemma_point_index_bits(b@, dim as nat);
    }
    Ok(index)
}

/// What is wrong with entry `k` of a list of entries, if anything: its key
/// is no point of the hypercube, or an earlier entry holds the same point,
/// so that the list is no mapping of its length.
pub open spec fn entry_error<F: Field>(e: Seq<(Vec<F>, F)>, dim: usize, k: int) -> Option<
    OracleError,
> {
    match key_error(e[k].0@, dim) {
        Some(err) => Some(err),
        None => if exists|l: int| 0 <= l < k && same_point(e, dim, l, k) {
            Some(OracleError::IncorrectOracleSize)
        } else {
            None
        },
    }
}

/// Whether entries `l` and `k` both hold the same point of the hypercube.
pub open spec fn same_point<F: Field>(e: Seq<(Vec<F>, F)>, dim: usize, l: int, k: int) -> bool {
    &&& key_error(e[l].0@, dim).is_none()
    &&& point_index(e[l].0@) == point_index(e[k].0@)
}

/// The first error that a walk over the first `n` entries meets, if any.
pub open spec fn scan_error<F: Field>(e: Seq<(Vec<F>, F)>, dim: usize, n: nat) -> Option<
    OracleError,
>
    decreases n,
{
    if n == 0 {
        None
    } else {
        match scan_error(e, dim, (n - 1) as nat) {
            Some(err) => Some(err),
            None => entry_error(e, dim, n - 1),
        }
    }
}

/// An error that the walk has met stays its result.
pub proof fn lemma_scan_error_stays<F: Field>(e: Seq<(Vec<F>, F)>, dim: usize, k: nat, n: nat)
    requires
        k <= n,
        scan_error(e, dim, k).is_some(),
    ensures
        scan_error(e, dim, n) == scan_error(e, dim, k),
    decreases n,
{
    if k < n {
        lemma_scan_error_stays(e, dim, k, (n - 1) as nat);
    }
}

/// Entries whose keys are the points of index `0, 1, 2, ...` in this order
/// are walked without error.
pub proof fn lemma_canonical_entries_scan<F: Field>(e: Seq<(Vec<F>, F)>, dim: usize, n: nat)
    requires
        n <= e.len(),
        forall|k: int|
            0 <= k < n ==> cube_point((#[trigger] e[k]).0@, dim as nat) && point_index(e[k].0@)
                == k,
    ensures
        scan_error(e, dim, n).is_none(),
    decreases n,
{
    if n > 0 {
        lemma_canonical_entries_scan(e, dim, (n - 1) as nat);
        assert(cube_point(e[n - 1].0@, dim as nat));
    }
}

/// The first entry with a fault decides the error of the walk.
pub proof fn lemma_first_fault_decides<F: Field>(
    e: Seq<(Vec<F>, F)>,
    dim: usize,
    k: nat,
    n: nat,
)
    requires
        k < n,
        forall|l: int| 0 <= l < k ==> entry_error(e, dim, l).is_none(),
        entry_error(e, dim, k as int).is_some(),
    ensures
        scan_error(e, dim, n) == entry_error(e, dim, k as int),
{
    lemma_scan_clean(e, dim, k);
    lemma_scan_error_stays(e, dim, k + 1, n);
}

/// A walk over entries without a fault meets no error.
pub proof fn lemma_scan_clean<F: Field>(e: Seq<(Vec<F>, F)>, dim: usize, n: nat)
    requires
        forall|l: int| 0 <= l < n ==> entry_error(e, dim, l).is_none(),
    ensures
        scan_error(e, dim, n).is_none(),
    decreases n,
{
    if n > 0 {
        lemma_scan_clean(e, dim, (n - 1) as nat);
    }
}

/// Construction guards: the walk meets no error exactly where every key
/// is a point of the hypercube and no two entries hold the same point.
pub proof fn lemma_scan_error_none_iff<F: Field>(e: Seq<(Vec<F>, F)>, dim: usize, n: nat)
    ensures
        scan_error(e, dim, n).is_none() <==> {
            &&& forall|k: int| 0 <= k < n ==> key_error(#[trigger] e[k].0@, dim).is_none()
            &&& forall|l: int, k: int|
                0 <= l < k < n ==> point_index(#[trigger] e[l].0@) != point_index(
                    #[trigger] e[k].0@,
                )
        },
    decreases n,
{
    if n > 0 {
        let m = (n - 1) as nat;
        lemma_scan_error_none_iff(e, dim, m);
        if scan_error(e, dim, n).is_none() {
            assert(entry_error(e, dim, m as int).is_none());
            assert forall|l: int, k: int| 0 <= l < k < n implies point_index(#[trigger] e[l].0@)
                != point_index(#[trigger] e[k].0@) by {
                if k == m {
                    assert(!same_point(e, dim, l, m as int));
                }
            }
        } else if scan_error(e, dim, m).is_none() {
            assert(entry_error(e, dim, m as int).is_some());
            if key_error(e[m as int].0@, dim).is_none() {
                let l = choose|l: int| 0 <= l < m && same_point(e, dim, l, m as int);
                assert(point_index(e[l].0@) == point_index(e[m as int].0@));
            }
        }
    }
}

/// How the parts of a sparse oracle hang together.
pub open spec fn sparse_inv<F: Field>(
    dim: usize,
    e: Seq<(Vec<F>, F)>,
    indices: Seq<usize>,
    c: Map<usize, usize>,
) -> bool {
    &&& e.len() == pow2(dim as nat)
    &&& e.len() <= usize::MAX
    &&& indices.len() == e.len()
    &&& forall|k: int|
        0 <= k < e.len() ==> {
            &&& cube_point((#[trigger] e[k]).0@, dim as nat)
            &&& indices[k] == point_index(e[k].0@)
            &&& c.dom().contains(indices[k])
            &&& c[indices[k]] == k
        }
    &&& forall|i: usize| i < e.len() ==> c.dom().contains(i)
    &&& forall|i: usize| #[trigger]
        c.dom().contains(i) ==> i < e.len() && c[i] < e.len() && indices[c[i] as int] == i
}

/// A function on the hypercube, stored as `2^dim` entries in the order in
/// which they were given, with a hash table to find the entry of a point.
pub struct BCubeMapOracle<F: Field> {
    dim: usize,
    entries: Vec<(Vec<F>, F)>,
    indices: Vec<usize>,
    index: PointIndex,
}

impl<F: Field> BCubeMapOracle<F> {
    #[verifier::type_invariant]
    spec fn well_formed(self) -> bool {
        sparse_inv(self.dim, self.entries@, self.indices@, index_contents(self.index))
    }

    /// The dimension, as stored.
    pub closed spec fn dim_value(self) -> usize {
        self.dim
    }

    /// The entries in the order in which they were given.
    pub closed spec fn entries_spec(self) -> Seq<(Vec<F>, F)> {
        self.entries@
    }

    /// The position of the entry that holds the point of index `i`.
    pub closed spec fn position(self, i: usize) -> int {
        index_contents(self.index)[i] as int
    }

    /// The entries in the order in which they were given.
    pub fn entries(&self) -> (r: &Vec<(Vec<F>, F)>)
        ensures
            r@ == self.entries_spec(),
    {
        &self.entries
    }

    /// Whether the oracle's table is the mapping that the entries `e` give.
    pub open spec fn holds(self, e: Seq<(Vec<F>, F)>) -> bool {
        &&& self.entries_spec() == e
        &&& self.table().len() == e.len()
        &&& forall|k: int|
            0 <= k < e.len() ==> point_index((#[trigger] e[k]).0@) < e.len() && self.table()[point_index(
                e[k].0@,
            ) as int] == e[k].1
    }

    /// Builds the oracle of dimension `dim` from its entries.
    ///
    /// The entries must be `2^dim` in number, else the size is wrong. They
    /// are then walked in order, and the first entry with a fault decides
    /// the error: a key of the wrong length, a coordinate that is neither
    /// zero nor one, or a point that an earlier entry holds already, which
    /// leaves fewer than `2^dim` points and so is a wrong size too.
    pub fn new(dim: usize, entries: Vec<(Vec<F>, F)>) -> (r: Result<BCubeMapOracle<F>, OracleError>)
        ensures
            entries.len() != pow2(dim as nat) ==> r == Err::<BCubeMapOracle<F>, OracleError>(
                OracleError::IncorrectOracleSize,
            ),
            entries.len() == pow2(dim as nat) ==> match scan_error(
                entries@,
                dim,
                entries.len() as nat,
            ) {
                Some(e) => r == Err::<BCubeMapOracle<F>, OracleError>(e),
                None => r.is_ok() && r.unwrap().dim_spec() == dim && r.unwrap().holds(entries@),
            },
    {
        let npoints = match checked_pow2(dim) {
            Some(n) => n,
            None => {
                return Err(OracleError::IncorrectOracleSize);
            },
        };
        if entries.len() != npoints {
            return Err(OracleError::IncorrectOracleSize);
        }
        let mut index = index_new();
        let mut indices: Vec<usize> = Vec::new();
        let mut k: usize = 0;
        while k < entries.len()
            invariant
                k <= entries.len(),
                entries.len() == npoints,
                npoints == pow2(dim as nat),
                indices.len() == k,
                index_contents(index).dom().finite(),
                index_contents(index).dom().len() == k,
                scan_error(entries@, dim, k as nat).is_none(),
                forall|l: int|
                    0 <= l < k ==> {
                        &&& cube_point((#[trigger] entries@[l]).0@, dim as nat)
                        &&& indices@[l] == point_index(entries@[l].0@)
                        &&& index_contents(index).dom().contains(indices@[l])
                        &&& index_contents(index)[indices@[l]] == l
                    },
                forall|i: usize| #[trigger]
                    index_contents(index).dom().contains(i) ==> i < npoints && index_contents(
                        index,
                    )[i] < k && indices@[index_contents(index)[i] as int] == i,
            decreases entries.len() - k,
        {
            let ghost before = index_contents(index);
            let point = match bcube_index(entries[k].0.as_slice(), dim) {
                Ok(i) => i,
                Err(e) => {
                    proof {
                        assert(scan_error(entries@, dim, (k + 1) as nat) == Some(e));
                        lemma_scan_error_stays(entries@, dim, (k + 1) as nat, entries.len() as nat);
                    }
                    return Err(e);
                },
            };
            let earlier = index_insert(&mut index, point, k);
            if earlier.is_some() {
                proof {
                    let l = before[point] as int;
                    assert(same_point(entries@, dim, l, k as int));
                    assert(scan_error(entries@, dim, (k + 1) as nat) == Some(
                        OracleError::IncorrectOracleSize,
                    ));
                    lemma_scan_error_stays(entries@, dim, (k + 1) as nat, entries.len() as nat);
                }
                return Err(OracleError::IncorrectOracleSize);
            }
            let ghost processed = indices@;
            indices.push(point);
            proof {
                assert(!before.dom().contains(point));
                assert(index_contents(index).dom() =~= before.dom().insert(point));
                assert forall|l: int| 0 <= l < k implies !same_point(entries@, dim, l, k as int) by {
                    assert(cube_point(entries@[l].0@, dim as nat));
                    assert(before.dom().contains(processed[l]));
                }
                assert(entry_error(entries@, dim, k as int).is_none());
            }
            k += 1;
        }
        proof {
            lemma_full_set(index_contents(index).dom(), npoints as nat);
        }
        let oracle = BCubeMapOracle { dim, entries, indices, index };
        proof {
            assert(oracle.table().len() == oracle.entries_spec().len());
            assert forall|l: int| 0 <= l < oracle.entries@.len() implies point_index(
                (#[trigger] oracle.entries@[l]).0@,
            ) < oracle.entries@.len() && oracle.table()[point_index(oracle.entries@[l].0@) as int]
                == oracle.entries@[l].1 by {
                assert(oracle.indices@[l] == point_index(oracle.entries@[l].0@));
            }
        }
        Ok(oracle)
    }

    /// The oracle of dimension `dim` whose keys are the points of index
    /// `0, 1, 2, ...` in this order, each with a value drawn from `rng`.
    ///
    /// Nothing is promised of the values; the keys make the oracle valid.
    pub fn new_rand(dim: usize, rng: &mut rand::rngs::StdRng) -> (r: Result<
        BCubeMapOracle<F>,
        OracleError,
    >) where F: UniformRand
        requires
            pow2(dim as nat) <= usize::MAX,
        ensures
            r.is_ok(),
            r.unwrap().dim_spec() == dim,
            r.unwrap().table().len() == pow2(dim as nat),
            r.unwrap().entries_spec().len() == pow2(dim as nat),
            forall|n: int|
                0 <= n < pow2(dim as nat) ==> cube_point(
                    (#[trigger] r.unwrap().entries_spec()[n]).0@,
                    dim as nat,
                ) && point_index(r.unwrap().entries_spec()[n].0@) == n,
    {
        let num_points = match checked_pow2(dim) {
            Some(n) => n,
            None => {
                proof {
                    assert(false);
                }
                0
            },
        };
        let mut entries: Vec<(Vec<F>, F)> = Vec::new();
        let mut n: usize = 0;
        while n < num_points
            invariant
                n <= num_points,
                num_points == pow2(dim as nat),
                entries.len() == n,
                forall|k: int|
                    0 <= k < n ==> cube_point((#[trigger] entries@[k]).0@, dim as nat)
                        && point_index(entries@[k].0@) == k,
            decreases num_points - n,
        {
            let bcube_elt = super::mle::to_bcube_elt::<F>(dim, n);
            let field_elt = F::rand(rng);
            proof {
                assert forall|j: int| 0 <= j < bcube_elt@.len() implies (#[trigger] bcube_elt@[j]).value()
                    == super::hypercube::bit(n as nat, j as nat) by {
                    assert(super::field::values(bcube_elt@)[j] == bcube_elt@[j].value());
                }
                super::hypercube::lemma_point_index_of_index_point(bcube_elt@, n as nat);
            }
            entries.push((bcube_elt, field_elt));
            n += 1;
        }
        proof {
            lemma_canonical_entries_scan(entries@, dim, entries.len() as nat);
        }
        Self::new(dim, entries)
    }
}

impl<F: Field> BCubeMap<F> for BCubeMapOracle<F> {
    open spec fn dim_spec(&self) -> nat {
        self.dim_value() as nat
    }

    open spec fn table(&self) -> Seq<F> {
        Seq::new(self.entries_spec().len(), |i: int| self.entries_spec()[self.position(i as usize)].1)
    }

    fn dim(&self) -> (d: usize) {
        proof {
            use_type_invariant(self);
        }
        self.dim
    }

    fn query(&self, b: &[F]) -> (r: Result<F, OracleError>) {
        proof {
            use_type_invariant(self);
        }
        match bcube_index(b, self.dim) {
            Ok(i) => match index_get(&self.index, i) {
                Some(position) => Ok(self.entries[position].1),
                None => Err(OracleError::PointNotFound),
            },
            Err(_) => Err(OracleError::PointNotFound),
        }
    }

    fn query_index(&self, i: usize) -> (r: Result<F, OracleError>) {
        proof {
            use_type_invariant(self);
        }
        match index_get(&self.index, i) {
            Some(position) => Ok(self.entries[position].1),
            None => Err(OracleError::PointNotFound),
        }
    }

    /// The entries in the order in which they were given, each point by
    /// its index.
    fn iter(&self) -> (entries: Vec<(usize, F)>)
        ensures
            entries.len() == self.entries_spec().len(),
            forall|k: int|
                0 <= k < entries.len() ==> (#[trigger] entries[k]).0 == point_index(
                    self.entries_spec()[k].0@,
                ) && entries[k].1 == self.entries_spec()[k].1,
    {
        proof {
            use_type_invariant(self);
        }
        let mut out: Vec<(usize, F)> = Vec::new();
        let mut k: usize = 0;
        while k < self.entries.len()
            invariant
                k <= self.entries.len(),
                out.len() == k,
                sparse_inv(self.dim, self.entries@, self.indices@, index_contents(self.index)),
                forall|l: int|
                    0 <= l < k ==> (#[trigger] out@[l]).0 == self.indices@[l] && out@[l].1
                        == self.entries@[l].1,
            decreases self.entries.len() - k,
        {
            out.push((self.indices[k], self.entries[k].1));
            k += 1;
        }
        proof {
            let c = index_contents(self.index);
            assert forall|a: int, l: int| 0 <= a < l < out@.len() implies (#[trigger] out@[a]).0
                != (#[trigger] out@[l]).0 by {
                assert(cube_point(self.entries@[a].0@, self.dim as nat));
                assert(cube_point(self.entries@[l].0@, self.dim as nat));
                assert(c[self.indices@[a]] == a);
                assert(c[self.indices@[l]] == l);
            }
            assert forall|a: int| 0 <= a < out@.len() implies (#[trigger] out@[a]).0
                < self.table().len() && out@[a].1 == self.table()[out@[a].0 as int] by {
                assert(cube_point(self.entries@[a].0@, self.dim as nat));
                assert(c[self.indices@[a]] == a);
                assert(c.dom().contains(self.indices@[a]));
            }
        }
        out
    }
}

} // verus!

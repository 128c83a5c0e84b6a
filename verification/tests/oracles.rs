use multilinear_extensions::multilinear::bls12_381::Fr;
use multilinear_extensions::multilinear::dense::DenseOracle;
use multilinear_extensions::multilinear::error::{MLEError, OracleError};
use multilinear_extensions::multilinear::field::Field;
use multilinear_extensions::multilinear::hypercube::checked_pow2;
use multilinear_extensions::multilinear::mle::to_bcube_elt;
use multilinear_extensions::multilinear::modint::ModInt;
use multilinear_extensions::multilinear::sparse::{bcube_index, BCubeMapOracle};
use multilinear_extensions::multilinear::traits::BCubeMap;
use rand::rngs::StdRng;
use rand::SeedableRng;

type F7 = ModInt<7>;

fn f7(values: &[u64]) -> Vec<F7> {
    values.iter().map(|&v| F7::new(v)).collect()
}

fn entry(key: &[u64], value: u64) -> (Vec<F7>, F7) {
    (f7(key), F7::new(value))
}

fn square() -> Vec<(Vec<F7>, F7)> {
    vec![
        entry(&[1, 1], 4),
        entry(&[0, 0], 1),
        entry(&[0, 1], 3),
        entry(&[1, 0], 2),
    ]
}

fn sparse_error(dim: usize, entries: Vec<(Vec<F7>, F7)>) -> OracleError {
    match BCubeMapOracle::new(dim, entries) {
        Ok(_) => panic!("the entries were accepted"),
        Err(e) => e,
    }
}

fn dense_error(dim: usize, values: Vec<F7>) -> OracleError {
    match DenseOracle::new(dim, values) {
        Ok(_) => panic!("the values were accepted"),
        Err(e) => e,
    }
}

#[test]
fn checked_pow2_values() {
    assert_eq!(checked_pow2(0), Some(1));
    assert_eq!(checked_pow2(1), Some(2));
    assert_eq!(checked_pow2(10), Some(1024));
    assert_eq!(checked_pow2(usize::BITS as usize - 1), Some(1 << (usize::BITS - 1)));
    assert_eq!(checked_pow2(usize::BITS as usize), None);
    assert_eq!(checked_pow2(usize::MAX), None);
}

#[test]
fn to_bcube_elt_spells_the_bits() {
    assert_eq!(to_bcube_elt::<F7>(3, 5), f7(&[1, 0, 1]));
    assert_eq!(to_bcube_elt::<F7>(3, 6), f7(&[0, 1, 1]));
    assert_eq!(to_bcube_elt::<F7>(2, 1), f7(&[1, 0]));
    assert_eq!(to_bcube_elt::<F7>(2, 0), f7(&[0, 0]));
    assert_eq!(to_bcube_elt::<F7>(0, 0), f7(&[]));
    assert_eq!(to_bcube_elt::<F7>(2, 7), f7(&[1, 1]));
    assert_eq!(
        to_bcube_elt::<Fr>(3, 4),
        vec![Fr::zero(), Fr::zero(), Fr::one()]
    );
}

#[test]
fn to_bcube_elt_past_the_word() {
    let bits = usize::BITS as usize;
    let point = to_bcube_elt::<F7>(bits + 6, usize::MAX);
    assert_eq!(point.len(), bits + 6);
    assert!(point[..bits].iter().all(|x| x.is_one()));
    assert!(point[bits..].iter().all(|x| x.is_zero()));
}

#[test]
fn bcube_index_inverts_to_bcube_elt() {
    for n in 0..32usize {
        assert_eq!(bcube_index(&to_bcube_elt::<F7>(5, n), 5), Ok(n));
        assert_eq!(bcube_index(&to_bcube_elt::<Fr>(5, n), 5), Ok(n));
    }
    assert_eq!(bcube_index(&f7(&[0, 1, 1]), 3), Ok(6));
    assert_eq!(bcube_index(&f7(&[]), 0), Ok(0));
}

#[test]
fn bcube_index_names_the_fault() {
    assert_eq!(
        bcube_index(&f7(&[0, 1]), 3),
        Err(OracleError::IncorrectOraclePointDimension { expected: 3, found: 2 })
    );
    assert_eq!(bcube_index(&f7(&[0, 2, 1]), 3), Err(OracleError::NonbooleanOraclePoint));
    assert_eq!(
        bcube_index(&f7(&[5, 5, 5, 5]), 3),
        Err(OracleError::IncorrectOraclePointDimension { expected: 3, found: 4 })
    );
}

#[test]
fn dense_new_checks_the_size() {
    assert_eq!(dense_error(2, f7(&[1, 2, 3])), OracleError::IncorrectOracleSize);
    assert_eq!(dense_error(2, f7(&[1, 2, 3, 4, 5])), OracleError::IncorrectOracleSize);
    assert_eq!(dense_error(0, f7(&[])), OracleError::IncorrectOracleSize);
    assert_eq!(dense_error(1, f7(&[1])), OracleError::IncorrectOracleSize);
    assert_eq!(dense_error(usize::BITS as usize, f7(&[1, 2])), OracleError::IncorrectOracleSize);
    assert_eq!(dense_error(usize::MAX, f7(&[1])), OracleError::IncorrectOracleSize);
    assert!(DenseOracle::new(0, f7(&[9])).is_ok());
    assert!(DenseOracle::new(2, f7(&[1, 2, 3, 4])).is_ok());
}

#[test]
fn dense_holds_what_it_was_given() {
    let oracle = DenseOracle::new(2, f7(&[1, 2, 3, 4])).unwrap();
    assert_eq!(oracle.dim(), 2);
    assert_eq!(oracle.values(), &f7(&[1, 2, 3, 4]));
}

#[test]
fn dense_query_by_index() {
    let oracle = DenseOracle::new(2, f7(&[1, 2, 3, 4])).unwrap();
    assert_eq!(oracle.query_index(0), Ok(F7::new(1)));
    assert_eq!(oracle.query_index(1), Ok(F7::new(2)));
    assert_eq!(oracle.query_index(2), Ok(F7::new(3)));
    assert_eq!(oracle.query_index(3), Ok(F7::new(4)));
    assert_eq!(oracle.query_index(4), Err(OracleError::PointNotFound));
    assert_eq!(oracle.query_index(usize::MAX), Err(OracleError::PointNotFound));
}

#[test]
fn dense_query_by_point() {
    let oracle = DenseOracle::new(2, f7(&[1, 2, 3, 4])).unwrap();
    assert_eq!(oracle.query(&f7(&[0, 0])), Ok(F7::new(1)));
    assert_eq!(oracle.query(&f7(&[1, 0])), Ok(F7::new(2)));
    assert_eq!(oracle.query(&f7(&[0, 1])), Ok(F7::new(3)));
    assert_eq!(oracle.query(&f7(&[1, 1])), Ok(F7::new(4)));
    assert_eq!(oracle.query(&f7(&[1])), Err(OracleError::PointNotFound));
    assert_eq!(oracle.query(&f7(&[1, 0, 0])), Err(OracleError::PointNotFound));
    assert_eq!(oracle.query(&f7(&[2, 0])), Err(OracleError::PointNotFound));
}

#[test]
fn dense_iterates_in_index_order() {
    let oracle = DenseOracle::new(2, f7(&[1, 2, 3, 4])).unwrap();
    assert_eq!(
        oracle.iter(),
        vec![(0, F7::new(1)), (1, F7::new(2)), (2, F7::new(3)), (3, F7::new(4))]
    );
    let point = DenseOracle::new(0, f7(&[9])).unwrap();
    assert_eq!(point.iter(), vec![(0, F7::new(2))]);
}

#[test]
fn dense_new_rand_has_the_size() {
    let mut rng = StdRng::seed_from_u64(1);
    for dim in 0..6 {
        let oracle = DenseOracle::<Fr>::new_rand(dim, &mut rng);
        assert_eq!(oracle.dim(), dim);
        assert_eq!(oracle.values().len(), 1 << dim);
        assert_eq!(oracle.iter().len(), 1 << dim);
    }
    let a = DenseOracle::<Fr>::new_rand(3, &mut rng);
    let b = DenseOracle::<Fr>::new_rand(3, &mut rng);
    assert_ne!(a.values(), b.values());
}

#[test]
fn sparse_accepts_a_full_mapping() {
    let oracle = BCubeMapOracle::new(2, square()).unwrap();
    assert_eq!(oracle.dim(), 2);
    assert_eq!(oracle.entries(), &square());
    let point = BCubeMapOracle::new(0, vec![entry(&[], 9)]).unwrap();
    assert_eq!(point.dim(), 0);
    assert_eq!(point.query(&f7(&[])), Ok(F7::new(2)));
}

#[test]
fn sparse_new_checks_the_size() {
    let mut short = square();
    short.pop();
    assert_eq!(sparse_error(2, short), OracleError::IncorrectOracleSize);
    let mut long = square();
    long.push(entry(&[1, 1], 0));
    assert_eq!(sparse_error(2, long), OracleError::IncorrectOracleSize);
    assert_eq!(sparse_error(3, square()), OracleError::IncorrectOracleSize);
    assert_eq!(sparse_error(0, vec![]), OracleError::IncorrectOracleSize);
    assert_eq!(sparse_error(usize::BITS as usize, square()), OracleError::IncorrectOracleSize);
}

#[test]
fn sparse_size_is_checked_before_the_keys() {
    let entries = vec![entry(&[2, 2, 2], 1), entry(&[0], 1), entry(&[0, 0], 1)];
    assert_eq!(sparse_error(2, entries), OracleError::IncorrectOracleSize);
}

#[test]
fn sparse_new_checks_key_lengths() {
    let mut entries = square();
    entries[2] = entry(&[0, 1, 0], 3);
    assert_eq!(
        sparse_error(2, entries),
        OracleError::IncorrectOraclePointDimension { expected: 2, found: 3 }
    );
    let mut entries = square();
    entries[3] = entry(&[1], 2);
    assert_eq!(
        sparse_error(2, entries),
        OracleError::IncorrectOraclePointDimension { expected: 2, found: 1 }
    );
    assert_eq!(
        sparse_error(0, vec![entry(&[0], 1)]),
        OracleError::IncorrectOraclePointDimension { expected: 0, found: 1 }
    );
}

#[test]
fn sparse_new_checks_coordinates() {
    let mut entries = square();
    entries[1] = entry(&[0, 2], 1);
    assert_eq!(sparse_error(2, entries), OracleError::NonbooleanOraclePoint);
    let mut entries = square();
    entries[3] = entry(&[6, 0], 2);
    assert_eq!(sparse_error(2, entries), OracleError::NonbooleanOraclePoint);
}

#[test]
fn sparse_length_is_checked_before_coordinates() {
    let mut entries = square();
    entries[0] = entry(&[3, 3, 3], 4);
    assert_eq!(
        sparse_error(2, entries),
        OracleError::IncorrectOraclePointDimension { expected: 2, found: 3 }
    );
}

#[test]
fn sparse_first_fault_decides() {
    let mut entries = square();
    entries[1] = entry(&[0, 5], 1);
    entries[2] = entry(&[0], 3);
    assert_eq!(sparse_error(2, entries), OracleError::NonbooleanOraclePoint);
    let mut entries = square();
    entries[1] = entry(&[0], 1);
    entries[2] = entry(&[0, 5], 3);
    assert_eq!(
        sparse_error(2, entries),
        OracleError::IncorrectOraclePointDimension { expected: 2, found: 1 }
    );
    let mut entries = square();
    entries[1] = entry(&[1, 1], 1);
    entries[2] = entry(&[0, 5], 3);
    assert_eq!(sparse_error(2, entries), OracleError::IncorrectOracleSize);
}

#[test]
fn sparse_rejects_a_repeated_point() {
    let mut entries = square();
    entries[3] = entry(&[0, 0], 2);
    assert_eq!(sparse_error(2, entries), OracleError::IncorrectOracleSize);
    let mut entries = square();
    entries[1] = entry(&[1, 1], 4);
    assert_eq!(sparse_error(2, entries), OracleError::IncorrectOracleSize);
    assert_eq!(
        sparse_error(1, vec![entry(&[8], 1), entry(&[1], 2)]),
        OracleError::IncorrectOracleSize
    );
}

#[test]
fn sparse_query_by_point() {
    let oracle = BCubeMapOracle::new(2, square()).unwrap();
    assert_eq!(oracle.query(&f7(&[0, 0])), Ok(F7::new(1)));
    assert_eq!(oracle.query(&f7(&[1, 0])), Ok(F7::new(2)));
    assert_eq!(oracle.query(&f7(&[0, 1])), Ok(F7::new(3)));
    assert_eq!(oracle.query(&f7(&[1, 1])), Ok(F7::new(4)));
    assert_eq!(oracle.query(&f7(&[8, 7])), Ok(F7::new(2)));
    assert_eq!(oracle.query(&f7(&[1])), Err(OracleError::PointNotFound));
    assert_eq!(oracle.query(&f7(&[1, 0, 0])), Err(OracleError::PointNotFound));
    assert_eq!(oracle.query(&f7(&[1, 3])), Err(OracleError::PointNotFound));
}

#[test]
fn sparse_query_by_index() {
    let oracle = BCubeMapOracle::new(2, square()).unwrap();
    assert_eq!(oracle.query_index(0), Ok(F7::new(1)));
    assert_eq!(oracle.query_index(1), Ok(F7::new(2)));
    assert_eq!(oracle.query_index(2), Ok(F7::new(3)));
    assert_eq!(oracle.query_index(3), Ok(F7::new(4)));
    assert_eq!(oracle.query_index(4), Err(OracleError::PointNotFound));
}

#[test]
fn sparse_iterates_in_insertion_order() {
    let oracle = BCubeMapOracle::new(2, square()).unwrap();
    assert_eq!(
        oracle.iter(),
        vec![(3, F7::new(4)), (0, F7::new(1)), (2, F7::new(3)), (1, F7::new(2))]
    );
}

#[test]
fn sparse_new_rand_has_canonical_keys() {
    let mut rng = StdRng::seed_from_u64(3);
    for dim in 0..6 {
        let oracle = BCubeMapOracle::<Fr>::new_rand(dim, &mut rng).unwrap();
        assert_eq!(oracle.dim(), dim);
        assert_eq!(oracle.entries().len(), 1 << dim);
        for (n, (key, value)) in oracle.entries().iter().enumerate() {
            assert_eq!(key, &to_bcube_elt::<Fr>(dim, n));
            assert_eq!(oracle.query(key), Ok(*value));
            assert_eq!(oracle.query_index(n), Ok(*value));
        }
    }
    let small = BCubeMapOracle::<F7>::new_rand(4, &mut rng).unwrap();
    assert_eq!(small.iter().len(), 16);
}

#[test]
fn oracle_errors_are_wrapped() {
    assert_eq!(
        MLEError::from_oracle(OracleError::PointNotFound),
        MLEError::Oracle(OracleError::PointNotFound)
    );
    assert_eq!(
        MLEError::from_oracle(OracleError::IncorrectOraclePointDimension { expected: 2, found: 5 }),
        MLEError::Oracle(OracleError::IncorrectOraclePointDimension { expected: 2, found: 5 })
    );
}

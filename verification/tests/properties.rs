use multilinear_extensions::multilinear::bls12_381::Fr;
use multilinear_extensions::multilinear::dense::DenseOracle;
use multilinear_extensions::multilinear::error::MLEError;
use multilinear_extensions::multilinear::field::{Field, UniformRand};
use multilinear_extensions::multilinear::mle::{
    to_bcube_elt, weighted_sum, EvaluationType, MultilinearExtension,
};
use multilinear_extensions::multilinear::modint::ModInt;
use multilinear_extensions::multilinear::sparse::BCubeMapOracle;
use multilinear_extensions::multilinear::traits::{BCubeMap, MLE};
use rand::rngs::StdRng;
use rand::seq::SliceRandom;
use rand::SeedableRng;

type F7 = ModInt<7>;

fn interpolates<F, M>(oracle: M, dim: usize)
where
    F: Field + PartialEq + std::fmt::Debug,
    M: BCubeMap<F>,
{
    let mle = MultilinearExtension::new(oracle, dim, EvaluationType::Naive);
    for i in 0..(1usize << dim) {
        let point = to_bcube_elt::<F>(dim, i);
        let at_point = mle.evaluate(&point).unwrap();
        assert_eq!(Ok(at_point), mle.oracle.query_index(i));
        assert_eq!(Ok(at_point), mle.oracle.query(&point));
    }
}

fn affine_in_each_coordinate<F>(oracle: DenseOracle<F>, dim: usize, z: Vec<F>, x: F)
where
    F: Field + PartialEq + std::fmt::Debug,
{
    let mle = MultilinearExtension::new(oracle, dim, EvaluationType::Naive);
    for k in 0..dim {
        let mut at = z.clone();
        at[k] = F::zero();
        let c0 = mle.evaluate(&at).unwrap();
        at[k] = F::one();
        let c1 = mle.evaluate(&at).unwrap();
        at[k] = x;
        let cx = mle.evaluate(&at).unwrap();
        assert_eq!(cx, c0.add(&x.mul(&c1.sub(&c0))));
    }
}

#[test]
fn interpolation_mod_seven() {
    let mut rng = StdRng::seed_from_u64(41);
    for dim in 0..7usize {
        interpolates(DenseOracle::<F7>::new_rand(dim, &mut rng), dim);
        interpolates(BCubeMapOracle::<F7>::new_rand(dim, &mut rng).unwrap(), dim);
    }
}

#[test]
fn interpolation_in_the_large_field() {
    let mut rng = StdRng::seed_from_u64(42);
    for dim in 0..6usize {
        interpolates(DenseOracle::<Fr>::new_rand(dim, &mut rng), dim);
        interpolates(BCubeMapOracle::<Fr>::new_rand(dim, &mut rng).unwrap(), dim);
    }
}

#[test]
fn dimension_guard_for_every_length() {
    let mut rng = StdRng::seed_from_u64(43);
    for dim in 0..5usize {
        let mle = MultilinearExtension::new(
            DenseOracle::<F7>::new_rand(dim, &mut rng),
            dim,
            EvaluationType::Naive,
        );
        for found in 0..8usize {
            let z: Vec<F7> = (0..found).map(|_| F7::rand(&mut rng)).collect();
            let r = mle.evaluate(&z);
            if found == dim {
                assert!(r.is_ok());
            } else {
                assert_eq!(r, Err(MLEError::WrongDimension { expected: dim, found }));
            }
        }
    }
}

#[test]
fn multilinearity_mod_seven() {
    let mut rng = StdRng::seed_from_u64(44);
    for dim in 1..6usize {
        for _ in 0..5 {
            let oracle = DenseOracle::<F7>::new_rand(dim, &mut rng);
            let z: Vec<F7> = (0..dim).map(|_| F7::rand(&mut rng)).collect();
            affine_in_each_coordinate(oracle, dim, z, F7::rand(&mut rng));
        }
    }
}

#[test]
fn multilinearity_in_the_large_field() {
    let mut rng = StdRng::seed_from_u64(45);
    for dim in 1..6usize {
        let oracle = DenseOracle::<Fr>::new_rand(dim, &mut rng);
        let z: Vec<Fr> = (0..dim).map(|_| Fr::rand(&mut rng)).collect();
        affine_in_each_coordinate(oracle, dim, z, Fr::rand(&mut rng));
    }
}

#[test]
fn order_of_entries_does_not_matter() {
    let mut rng = StdRng::seed_from_u64(46);
    for dim in 0..6usize {
        let first = BCubeMapOracle::<Fr>::new_rand(dim, &mut rng).unwrap();
        let z: Vec<Fr> = (0..dim).map(|_| Fr::rand(&mut rng)).collect();
        let mut shuffled = first.entries().clone();
        shuffled.shuffle(&mut rng);
        let mut listed = first.iter();
        let in_order = weighted_sum(&listed, &z);
        listed.shuffle(&mut rng);
        assert_eq!(weighted_sum(&listed, &z), in_order);
        listed.reverse();
        assert_eq!(weighted_sum(&listed, &z), in_order);
        let second = BCubeMapOracle::new(dim, shuffled).unwrap();
        let a = MultilinearExtension::new(first, dim, EvaluationType::Naive);
        let b = MultilinearExtension::new(second, dim, EvaluationType::Naive);
        assert_eq!(a.evaluate(&z), b.evaluate(&z));
        assert_eq!(a.evaluate(&z), Ok(in_order));
    }
}

#[test]
fn evaluation_leaves_the_oracle_as_it_was() {
    let mut rng = StdRng::seed_from_u64(47);
    let oracle = DenseOracle::<F7>::new_rand(3, &mut rng);
    let before = oracle.values().clone();
    let mle = MultilinearExtension::new(oracle, 3, EvaluationType::Naive);
    let z: Vec<F7> = (0..3).map(|_| F7::rand(&mut rng)).collect();
    let first = mle.evaluate(&z);
    let second = mle.evaluate(&z);
    assert_eq!(first, second);
    assert_eq!(mle.oracle.values(), &before);
}

use multilinear_extensions::multilinear::dense::DenseOracle;
use multilinear_extensions::multilinear::error::MLEError;
use multilinear_extensions::multilinear::field::Field;
use multilinear_extensions::multilinear::mle::{EvaluationType, MultilinearExtension};
use multilinear_extensions::multilinear::modint::ModInt;
use multilinear_extensions::multilinear::traits::MLE;

type F7 = ModInt<7>;

fn f7(values: &[u64]) -> Vec<F7> {
    values.iter().map(|&v| F7::new(v)).collect()
}

#[test]
fn dim_one_mod_seven() {
    let oracle = DenseOracle::new(1, f7(&[3, 5])).unwrap();
    let mle = MultilinearExtension::new(oracle, 1, EvaluationType::Naive);
    let value = mle.evaluate(&f7(&[2])).unwrap();
    assert_eq!(value, F7::zero());
    assert_eq!(value.residue(), 0);
}

#[test]
fn wrong_dimension_is_reported() {
    let oracle = DenseOracle::new(3, f7(&[0, 1, 2, 3, 4, 5, 6, 0])).unwrap();
    let mle = MultilinearExtension::new(oracle, 3, EvaluationType::Naive);
    assert_eq!(
        mle.evaluate(&f7(&[1, 2])),
        Err(MLEError::WrongDimension { expected: 3, found: 2 })
    );
}

#[test]
fn oracles_are_reached_through_the_evaluation_module() {
    let dense = multilinear_extensions::multilinear::mle::DenseOracle::new(1, f7(&[3, 5])).unwrap();
    let sparse = multilinear_extensions::multilinear::mle::BCubeMapOracle::new(
        1,
        vec![(f7(&[1]), F7::new(5)), (f7(&[0]), F7::new(3))],
    )
    .unwrap();
    let a = MultilinearExtension::new(dense, 1, EvaluationType::Naive);
    let b = MultilinearExtension::new(sparse, 1, EvaluationType::Naive);
    assert_eq!(a.evaluate(&f7(&[2])), Ok(F7::zero()));
    assert_eq!(b.evaluate(&f7(&[2])), Ok(F7::zero()));
}

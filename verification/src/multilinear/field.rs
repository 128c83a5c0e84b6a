//! The scalars that oracles store and evaluation computes with.

use vstd::prelude::*;

verus! {

/// A scalar of the residue ring of the integers modulo `modulus()`.
///
/// Every element stands for one integer in `[0, modulus())`, its `value`.
/// With a prime modulus the ring is a field; what this crate proves needs
/// the ring laws only, and that zero and one differ.
pub trait Field: Sized + Copy {
    /// The number of elements.
    spec fn modulus() -> int;

    /// The integer in `[0, modulus())` that the element stands for.
    spec fn value(&self) -> int;

    /// Zero and one are different elements.
    proof fn lemma_modulus_bound()
        ensures
            Self::modulus() >= 2,
    ;

    /// Every value is reduced.
    proof fn lemma_value_bound(x: Self)
        ensures
            0 <= x.value() < Self::modulus(),
    ;

    /// The additive identity.
    fn zero() -> (r: Self)
        ensures
            r.value() == 0,
    ;

    /// The multiplicative identity.
    fn one() -> (r: Self)
        ensures
            r.value() == 1,
    ;

    /// Whether the element is the additive identity.
    fn is_zero(&self) -> (b: bool)
        ensures
            b == (self.value() == 0),
    ;

    /// Whether the element is the multiplicative identity.
    fn is_one(&self) -> (b: bool)
        ensures
            b == (self.value() == 1),
    ;

    /// The sum of two elements.
    fn add(&self, rhs: &Self) -> (r: Self)
        ensures
            r.value() == (self.value() + rhs.value()) % Self::modulus(),
    ;

    /// The difference of two elements.
    fn sub(&self, rhs: &Self) -> (r: Self)
        ensures
            r.value() == (self.value() - rhs.value()) % Self::modulus(),
    ;

    /// The product of two elements.
    fn mul(&self, rhs: &Self) -> (r: Self)
        ensures
            r.value() == (self.value() * rhs.value()) % Self::modulus(),
    ;
}

/// The integers that a sequence of scalars stands for.
pub open spec fn values<F: Field>(s: Seq<F>) -> Seq<int> {
    Seq::new(s.len(), |i: int| s[i].value())
}

/// Whether a scalar is one of the two Boolean values.
pub open spec fn is_bit<F: Field>(x: F) -> bool {
    x.value() == 0 || x.value() == 1
}

/// The generator that random scalars are drawn from.
#[verifier::external_type_specification]
#[verifier::external_body]
pub struct ExStdRng(rand::rngs::StdRng);

/// A field whose elements can be drawn at random.
pub trait UniformRand: Sized {
    /// An element drawn uniformly from the field.
    fn rand(rng: &mut rand::rngs::StdRng) -> Self;
}

} // verus!

//! The integers modulo a small constant, as a field to compute with.

use super::field::{Field, UniformRand};
use vstd::arithmetic::div_mod::{lemma_mod_bound, lemma_small_mod};
use vstd::prelude::*;

verus! {

/// An integer modulo `Q`, held as its residue in `[0, Q)`.
///
/// With a prime `Q` these are a field. A `Q` below two names no ring with
/// a one that differs from zero: it stands for `2^64`, the machine word.
#[derive(Clone, Copy, Debug, PartialEq, Eq, Hash)]
pub struct ModInt<const Q: u64> {
    residue: u64,
}

/// What `rand::Rng::gen_range` returns for the range from zero up to
/// `bound`, which must hold a number: some number of that range.
#[verifier::external_body]
fn random_below(rng: &mut rand::rngs::StdRng, bound: u128) -> (r: u128)
    requires
        bound > 0,
    ensures
        r < bound,
{
    rand::Rng::gen_range(rng, 0..bound)
}

impl<const Q: u64> ModInt<Q> {
    /// The modulus that `Q` stands for.
    pub open spec fn spec_modulus() -> int {
        if Q >= 2 {
            Q as int
        } else {
            0x1_0000_0000_0000_0000
        }
    }

    /// The number that the element holds.
    pub closed spec fn stored(self) -> int {
        self.residue as int
    }

    /// Whether the number that the element holds is below the modulus.
    pub open spec fn canonical(self) -> bool {
        0 <= self.stored() < Self::spec_modulus()
    }

    #[verifier::type_invariant]
    spec fn reduced(self) -> bool {
        self.canonical()
    }

    /// The residue, reduced once more.
    pub closed spec fn residue_spec(self) -> int {
        self.residue as int % Self::spec_modulus()
    }

    /// The modulus, in a machine word wide enough for it.
    fn modulus_wide() -> (m: u128)
        ensures
            m == Self::spec_modulus(),
    {
        if Q >= 2 {
            Q as u128
        } else {
            0x1_0000_0000_0000_0000u128
        }
    }

    /// The element that `x` stands for.
    pub fn new(x: u64) -> (r: Self)
        ensures
            r.value() == x as int % Self::modulus(),
    {
        let m = Self::modulus_wide();
        let reduced = (x as u128 % m) as u64;
        proof {
            lemma_small_mod(reduced as nat, m as nat);
        }
        ModInt { residue: reduced }
    }

    /// The integer in `[0, Q)` that the element stands for.
    pub fn residue(&self) -> (r: u64)
        ensures
            r == self.value(),
    {
        proof {
            use_type_invariant(self);
            lemma_small_mod(self.residue as nat, Self::spec_modulus() as nat);
        }
        self.residue
    }
}

impl<const Q: u64> Field for ModInt<Q> {
    open spec fn modulus() -> int {
        Self::spec_modulus()
    }

    open spec fn value(&self) -> int {
        self.residue_spec()
    }

    proof fn lemma_modulus_bound() {
    }

    proof fn lemma_value_bound(x: Self) {
        lemma_mod_bound(x.residue as int, Self::spec_modulus());
    }

    fn zero() -> (r: Self) {
        proof {
            lemma_small_mod(0, Self::spec_modulus() as nat);
        }
        ModInt { residue: 0 }
    }

    fn one() -> (r: Self) {
        proof {
            lemma_small_mod(1, Self::spec_modulus() as nat);
        }
        ModInt { residue: 1 }
    }

    fn is_zero(&self) -> (b: bool) {
        self.residue() == 0
    }

    fn is_one(&self) -> (b: bool) {
        self.residue() == 1
    }

    fn add(&self, rhs: &Self) -> (r: Self) {
        let m = Self::modulus_wide();
        let a = self.residue();
        let b = rhs.residue();
        let sum = ((a as u128 + b as u128) % m) as u64;
        proof {
            lemma_small_mod(sum as nat, m as nat);
        }
        ModInt { residue: sum }
    }

    fn sub(&self, rhs: &Self) -> (r: Self) {
        let m = Self::modulus_wide();
        let a = self.residue();
        let b = rhs.residue();
        proof {
            Self::lemma_value_bound(*rhs);
        }
        let difference = ((a as u128 + m - b as u128) % m) as u64;
        proof {
            vstd::arithmetic::div_mod::lemma_mod_add_multiples_vanish(a - b, m as int);
            lemma_small_mod(difference as nat, m as nat);
        }
        ModInt { residue: difference }
    }

    fn mul(&self, rhs: &Self) -> (r: Self) {
        let m = Self::modulus_wide();
        let a = self.residue();
        let b = rhs.residue();
        assert(a * b <= 0xffff_ffff_ffff_ffff * 0xffff_ffff_ffff_ffff) by (nonlinear_arith)
            requires
                0 <= a <= 0xffff_ffff_ffff_ffff,
                0 <= b <= 0xffff_ffff_ffff_ffff,
        ;
        let product = ((a as u128 * b as u128) % m) as u64;
        proof {
            lemma_small_mod(product as nat, m as nat);
        }
        ModInt { residue: product }
    }
}

impl<const Q: u64> UniformRand for ModInt<Q> {
    /// An element drawn from the numbers below the modulus. Whatever is
    /// drawn, the element holds it as it is, so it stands for that number.
    fn rand(rng: &mut rand::rngs::StdRng) -> (r: Self)
        ensures
            r.canonical(),
            r.value() == r.stored(),
    {
        let drawn = random_below(rng, Self::modulus_wide());
        proof {
            lemma_small_mod(drawn as nat, Self::spec_modulus() as nat);
        }
        ModInt { residue: drawn as u64 }
    }
}

} // verus!

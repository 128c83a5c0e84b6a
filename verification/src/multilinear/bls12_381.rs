//! The scalar field of the curve BLS12-381, with the arithmetic of the
//! crate `ark-ff`.
//!
//! An element is held as the four 64-bit limbs of the integer in `[0, r)`
//! that it stands for, least significant limb first. Sums, differences and
//! products are computed by `ark-ff` on `ark_test_curves::bls12_381::Fr`;
//! Verus does not read that crate, so what those operations return is
//! stated here and believed.

use super::field::{Field, UniformRand};
use vstd::arithmetic::div_mod::{lemma_mod_bound, lemma_small_mod};
use vstd::prelude::*;

verus! {

/// The limbs of the modulus, least significant first.
pub const MODULUS_LIMB_0: u64 = 0xffff_ffff_0000_0001;

pub const MODULUS_LIMB_1: u64 = 0x53bd_a402_fffe_5bfe;

pub const MODULUS_LIMB_2: u64 = 0x3339_d808_09a1_d805;

pub const MODULUS_LIMB_3: u64 = 0x73ed_a753_299d_7d48;

/// The order `r` of the scalar field.
pub open spec fn fr_modulus() -> int {
    52435875175126190479447740508185965837690552500527637822603658699938581184513int
}

/// The integer that four limbs spell, least significant first.
pub open spec fn limbs_to_int(l0: u64, l1: u64, l2: u64, l3: u64) -> int {
    l0 + l1 * 0x1_0000_0000_0000_0000int + l2 * 0x1_0000_0000_0000_0000_0000_0000_0000_0000int + l3
        * 0x1_0000_0000_0000_0000_0000_0000_0000_0000_0000_0000_0000_0000int
}

/// The limbs of the modulus spell the modulus.
pub proof fn lemma_modulus_limbs()
    ensures
        limbs_to_int(MODULUS_LIMB_0, MODULUS_LIMB_1, MODULUS_LIMB_2, MODULUS_LIMB_3)
            == fr_modulus(),
{
}

/// An element of the scalar field of BLS12-381.
#[derive(Clone, Copy, Debug, PartialEq, Eq, Hash)]
pub struct Fr {
    l0: u64,
    l1: u64,
    l2: u64,
    l3: u64,
}

/// The sum in `ark-ff`: `Fp::from` on each operand's limbs, `+` on the
/// two elements, `into_bigint` on the result. The limbs that come back
/// spell the sum of the two integers, reduced modulo `r`.
#[verifier::external_body]
fn fr_add(a: &Fr, b: &Fr) -> (r: Fr)
    requires
        a.canonical(),
        b.canonical(),
    ensures
        r.canonical(),
        r.limbs_value() == (a.limbs_value() + b.limbs_value()) % fr_modulus(),
{
    let x = ark_test_curves::bls12_381::Fr::from(ark_ff::BigInt::new([a.l0, a.l1, a.l2, a.l3]));
    let y = ark_test_curves::bls12_381::Fr::from(ark_ff::BigInt::new([b.l0, b.l1, b.l2, b.l3]));
    let s = ark_ff::PrimeField::into_bigint(x + y).0;
    Fr { l0: s[0], l1: s[1], l2: s[2], l3: s[3] }
}

/// The difference in `ark-ff`: as the sum, with `-`. The limbs that come
/// back spell the difference of the two integers, reduced modulo `r`.
#[verifier::external_body]
fn fr_sub(a: &Fr, b: &Fr) -> (r: Fr)
    requires
        a.canonical(),
        b.canonical(),
    ensures
        r.canonical(),
        r.limbs_value() == (a.limbs_value() - b.limbs_value()) % fr_modulus(),
{
    let x = ark_test_curves::bls12_381::Fr::from(ark_ff::BigInt::new([a.l0, a.l1, a.l2, a.l3]));
    let y = ark_test_curves::bls12_381::Fr::from(ark_ff::BigInt::new([b.l0, b.l1, b.l2, b.l3]));
    let s = ark_ff::PrimeField::into_bigint(x - y).0;
    Fr { l0: s[0], l1: s[1], l2: s[2], l3: s[3] }
}

/// The product in `ark-ff`: as the sum, with `*`. The limbs that come
/// back spell the product of the two integers, reduced modulo `r`.
#[verifier::external_body]
fn fr_mul(a: &Fr, b: &Fr) -> (r: Fr)
    requires
        a.canonical(),
        b.canonical(),
    ensures
        r.canonical(),
        r.limbs_value() == (a.limbs_value() * b.limbs_value()) % fr_modulus(),
{
    let x = ark_test_curves::bls12_381::Fr::from(ark_ff::BigInt::new([a.l0, a.l1, a.l2, a.l3]));
    let y = ark_test_curves::bls12_381::Fr::from(ark_ff::BigInt::new([b.l0, b.l1, b.l2, b.l3]));
    let s = ark_ff::PrimeField::into_bigint(x * y).0;
    Fr { l0: s[0], l1: s[1], l2: s[2], l3: s[3] }
}

/// A random element from `ark-ff`: `UniformRand::rand`, then
/// `into_bigint`. Whatever is drawn, its limbs spell an integer below `r`.
#[verifier::external_body]
fn fr_rand(rng: &mut rand::rngs::StdRng) -> (r: Fr)
    ensures
        r.canonical(),
{
    let x: ark_test_curves::bls12_381::Fr = ark_ff::UniformRand::rand(rng);
    let s = ark_ff::PrimeField::into_bigint(x).0;
    Fr { l0: s[0], l1: s[1], l2: s[2], l3: s[3] }
}

impl Fr {
    /// The integer that the limbs spell.
    pub closed spec fn limbs_value(self) -> int {
        limbs_to_int(self.l0, self.l1, self.l2, self.l3)
    }

    /// Whether the limbs spell an integer below the modulus.
    pub open spec fn canonical(self) -> bool {
        self.limbs_value() < fr_modulus()
    }

    #[verifier::type_invariant]
    spec fn well_formed(self) -> bool {
        self.canonical()
    }

    /// The limbs, least significant first.
    pub closed spec fn limbs_spec(self) -> (u64, u64, u64, u64) {
        (self.l0, self.l1, self.l2, self.l3)
    }

    /// The element that the integer `x` stands for.
    pub fn from_u64(x: u64) -> (r: Self)
        ensures
            r.value() == x,
    {
        proof {
            lemma_small_mod(x as nat, fr_modulus() as nat);
        }
        Fr { l0: x, l1: 0, l2: 0, l3: 0 }
    }

    /// The element whose integer the limbs spell, least significant limb
    /// first, where that integer is below the modulus.
    pub fn from_limbs(limbs: [u64; 4]) -> (r: Option<Self>)
        ensures
            limbs_to_int(limbs[0], limbs[1], limbs[2], limbs[3]) >= fr_modulus() ==> r.is_none(),
            limbs_to_int(limbs[0], limbs[1], limbs[2], limbs[3]) < fr_modulus() ==> r.is_some()
                && r.unwrap().value() == limbs_to_int(limbs[0], limbs[1], limbs[2], limbs[3])
                && r.unwrap().limbs_spec() == (limbs[0], limbs[1], limbs[2], limbs[3]),
    {
        let l0 = limbs[0];
        let l1 = limbs[1];
        let l2 = limbs[2];
        let l3 = limbs[3];
        let below = if l3 != MODULUS_LIMB_3 {
            l3 < MODULUS_LIMB_3
        } else if l2 != MODULUS_LIMB_2 {
            l2 < MODULUS_LIMB_2
        } else if l1 != MODULUS_LIMB_1 {
            l1 < MODULUS_LIMB_1
        } else {
            l0 < MODULUS_LIMB_0
        };
        if below {
            proof {
                lemma_small_mod(limbs_to_int(l0, l1, l2, l3) as nat, fr_modulus() as nat);
            }
            Some(Fr { l0, l1, l2, l3 })
        } else {
            None
        }
    }

    /// The limbs of the integer in `[0, r)` that the element stands for,
    /// least significant first.
    pub fn limbs(&self) -> (r: [u64; 4])
        ensures
            limbs_to_int(r[0], r[1], r[2], r[3]) == self.value(),
            (r[0], r[1], r[2], r[3]) == self.limbs_spec(),
    {
        proof {
            use_type_invariant(self);
            lemma_small_mod(self.limbs_value() as nat, fr_modulus() as nat);
        }
        [self.l0, self.l1, self.l2, self.l3]
    }
}

impl Field for Fr {
    open spec fn modulus() -> int {
        fr_modulus()
    }

    open spec fn value(&self) -> int {
        self.limbs_value() % fr_modulus()
    }

    proof fn lemma_modulus_bound() {
    }

    proof fn lemma_value_bound(x: Self) {
        lemma_mod_bound(x.limbs_value(), fr_modulus());
    }

    fn zero() -> (r: Self) {
        Fr::from_u64(0)
    }

    fn one() -> (r: Self) {
        Fr::from_u64(1)
    }

    fn is_zero(&self) -> (b: bool) {
        proof {
            use_type_invariant(self);
            lemma_small_mod(self.limbs_value() as nat, fr_modulus() as nat);
        }
        self.l0 == 0 && self.l1 == 0 && self.l2 == 0 && self.l3 == 0
    }

    fn is_one(&self) -> (b: bool) {
        proof {
            use_type_invariant(self);
            lemma_small_mod(self.limbs_value() as nat, fr_modulus() as nat);
        }
        self.l0 == 1 && self.l1 == 0 && self.l2 == 0 && self.l3 == 0
    }

    fn add(&self, rhs: &Self) -> (r: Self) {
        proof {
            use_type_invariant(self);
            use_type_invariant(rhs);
            lemma_small_mod(self.limbs_value() as nat, fr_modulus() as nat);
            lemma_small_mod(rhs.limbs_value() as nat, fr_modulus() as nat);
        }
        let r = fr_add(self, rhs);
        proof {
            lemma_small_mod(r.limbs_value() as nat, fr_modulus() as nat);
        }
        r
    }

    fn sub(&self, rhs: &Self) -> (r: Self) {
        proof {
            use_type_invariant(self);
            use_type_invariant(rhs);
            lemma_small_mod(self.limbs_value() as nat, fr_modulus() as nat);
            lemma_small_mod(rhs.limbs_value() as nat, fr_modulus() as nat);
        }
        let r = fr_sub(self, rhs);
        proof {
            lemma_small_mod(r.limbs_value() as nat, fr_modulus() as nat);
        }
        r
    }

    fn mul(&self, rhs: &Self) -> (r: Self) {
        proof {
            use_type_invariant(self);
            use_type_invariant(rhs);
            lemma_small_mod(self.limbs_value() as nat, fr_modulus() as nat);
            lemma_small_mod(rhs.limbs_value() as nat, fr_modulus() as nat);
        }
        let r = fr_mul(self, rhs);
        proof {
            lemma_small_mod(r.limbs_value() as nat, fr_modulus() as nat);
        }
        r
    }
}

impl UniformRand for Fr {
    /// An element drawn from the field. Whatever is drawn, its limbs spell
    /// an integer below the modulus, which is the integer it stands for.
    fn rand(rng: &mut rand::rngs::StdRng) -> (r: Self)
        ensures
            r.canonical(),
            r.value() == r.limbs_value(),
    {
        let r = fr_rand(rng);
        proof {
            lemma_small_mod(r.limbs_value() as nat, fr_modulus() as nat);
        }
        r
    }
}

} // verus!

//! What holds of the multilinear extension, whatever the oracle and the
//! point: it interpolates the oracle, it is affine in every coordinate, and
//! the order in which the oracle's entries are summed does not matter.

use super::field::{values, Field};
use super::hypercube::{
    bit, index_point, lemma_bit_range, lemma_bits_determine_index, same_bits,
};
use super::lagrange::{
    basis, basis_upto, entries_sum, entry_term, eq_factor, eq_poly, eq_poly_upto, factor,
    lemma_entries_sum_remove, lemma_value_reduced, mle_sum, mle_sum_upto, mle_value,
};
use vstd::arithmetic::div_mod::{
    lemma_add_mod_noop, lemma_mul_mod_noop_right, lemma_small_mod, lemma_sub_mod_noop,
};
use vstd::arithmetic::power2::pow2;
use vstd::prelude::*;

verus! {

/// At the coordinates of point `i`, the first `n` factors of the basis
/// polynomial of point `k` multiply to one where `k` and `i` agree on their
/// first `n` bits, and to zero where they do not.
pub proof fn lemma_basis_at_point(k: nat, i: nat, d: nat, n: nat)
    requires
        n <= d,
    ensures
        basis_upto(k, index_point(d, i), n) == if same_bits(k, i, n) {
            1int
        } else {
            0int
        },
    decreases n,
{
    if n > 0 {
        let m = (n - 1) as nat;
        lemma_basis_at_point(k, i, d, m);
        lemma_bit_range(k, m);
        lemma_bit_range(i, m);
        let z = index_point(d, i);
        assert(z[m as int] == bit(i, m));
        let f = factor(bit(k, m) == 1, z[m as int]);
        assert(f == if bit(k, m) == bit(i, m) { 1int } else { 0int });
        if same_bits(k, i, n) {
            assert(same_bits(k, i, m)) by {
                assert forall|j: nat| j < m implies bit(k, j) == bit(i, j) by {
                    assert(j < n);
                }
            }
            assert(bit(k, m) == bit(i, m));
        } else {
            if same_bits(k, i, m) {
                if bit(k, m) == bit(i, m) {
                    assert forall|j: nat| j < n implies bit(k, j) == bit(i, j) by {
                        if j < m {
                        }
                    }
                    assert(false);
                }
            }
        }
    }
}

/// At the coordinates of point `i`, the extension's sum over the first `n`
/// points is the table's entry `i` once `n` is past `i`, and zero before.
pub proof fn lemma_sum_at_point(t: Seq<int>, i: nat, d: nat, n: nat)
    requires
        n <= pow2(d),
        i < pow2(d),
    ensures
        mle_sum_upto(t, index_point(d, i), n) == if i < n {
            t[i as int]
        } else {
            0int
        },
    decreases n,
{
    if n > 0 {
        let k = (n - 1) as nat;
        lemma_sum_at_point(t, i, d, k);
        let z = index_point(d, i);
        lemma_basis_at_point(k, i, d, d);
        assert(basis(k, z) == basis_upto(k, z, d));
        if k == i {
            assert(same_bits(k, i, d));
        } else {
            if same_bits(k, i, d) {
                lemma_bits_determine_index(k, i, d);
            }
            assert(t[k as int] * 0 == 0);
        }
    }
}

/// Interpolation: at the hypercube point of index `i`, the extension of a
/// table takes the table's entry `i`, which is what a query of the oracle
/// returns there.
pub proof fn lemma_interpolation<F: Field>(t: Seq<F>, z: Seq<F>, i: nat)
    requires
        t.len() == pow2(z.len()),
        i < t.len(),
        values(z) == index_point(z.len(), i),
    ensures
        mle_value(t, z) == t[i as int].value(),
{
    lemma_sum_at_point(values(t), i, z.len(), t.len());
    assert(values(t).len() == t.len());
    assert(values(t)[i as int] == t[i as int].value());
    lemma_value_reduced(t[i as int]);
}

/// The two ways to name a point agree, factor by factor: the first `n`
/// factors of `eq` at the coordinates of point `i` are those of the basis
/// polynomial of index `i`.
pub proof fn lemma_eq_poly_is_basis(i: nat, z: Seq<int>, n: nat)
    requires
        n <= z.len(),
    ensures
        eq_poly_upto(index_point(z.len(), i), z, n) == basis_upto(i, z, n),
    decreases n,
{
    if n > 0 {
        let m = (n - 1) as nat;
        lemma_eq_poly_is_basis(i, z, m);
        lemma_bit_range(i, m);
        let b = index_point(z.len(), i);
        assert(b[m as int] == bit(i, m));
        assert(eq_factor(b[m as int], z[m as int]) == factor(bit(i, m) == 1, z[m as int]))
            by (nonlinear_arith)
            requires
                b[m as int] == 0 || b[m as int] == 1,
                bit(i, m) == b[m as int],
        ;
    }
}

/// The Lagrange basis `eq` at the coordinates of point `i` is the basis
/// polynomial of index `i`.
pub proof fn lemma_eq_at_point_is_basis(i: nat, z: Seq<int>)
    ensures
        eq_poly(index_point(z.len(), i), z) == basis(i, z),
{
    lemma_eq_poly_is_basis(i, z, z.len());
}

/// The basis polynomial does not read coordinates at or past `n` in its
/// first `n` factors.
pub proof fn lemma_basis_ignores_later(i: nat, z: Seq<int>, k: int, a: int, n: nat)
    requires
        n <= k < z.len(),
    ensures
        basis_upto(i, z.update(k, a), n) == basis_upto(i, z, n),
    decreases n,
{
    if n > 0 {
        lemma_basis_ignores_later(i, z, k, a, (n - 1) as nat);
    }
}

/// Each basis polynomial is affine in coordinate `k`.
pub proof fn lemma_basis_affine(i: nat, z: Seq<int>, k: int, a: int, n: nat)
    requires
        0 <= k < z.len(),
        n <= z.len(),
    ensures
        basis_upto(i, z.update(k, a), n) == basis_upto(i, z.update(k, 0), n) + a * (basis_upto(
            i,
            z.update(k, 1),
            n,
        ) - basis_upto(i, z.update(k, 0), n)),
    decreases n,
{
    let za = z.update(k, a);
    let z0 = z.update(k, 0);
    let z1 = z.update(k, 1);
    if n <= k {
        lemma_basis_ignores_later(i, z, k, a, n);
        lemma_basis_ignores_later(i, z, k, 0, n);
        lemma_basis_ignores_later(i, z, k, 1, n);
        assert(a * 0 == 0);
    } else {
        let m = (n - 1) as nat;
        let set = bit(i, m) == 1;
        let at = basis_upto(i, za, m);
        let lo = basis_upto(i, z0, m);
        let hi = basis_upto(i, z1, m);
        if m == k {
            lemma_basis_ignores_later(i, z, k, a, m);
            lemma_basis_ignores_later(i, z, k, 0, m);
            lemma_basis_ignores_later(i, z, k, 1, m);
            let p = basis_upto(i, z, m);
            let fa = factor(set, a);
            let f0 = factor(set, 0);
            let f1 = factor(set, 1);
            assert(fa == f0 + a * (f1 - f0)) by {
                if set {
                    assert(a * (1 - 0) == a);
                } else {
                    assert(a * (0 - 1) == -a);
                }
            }
            assert(p * fa == p * f0 + a * (p * f1 - p * f0)) by (nonlinear_arith)
                requires
                    fa == f0 + a * (f1 - f0),
            ;
        } else {
            lemma_basis_affine(i, z, k, a, m);
            let f = factor(set, z[m as int]);
            assert(za[m as int] == z[m as int]);
            assert(z0[m as int] == z[m as int]);
            assert(z1[m as int] == z[m as int]);
            assert(at * f == lo * f + a * (hi * f - lo * f)) by (nonlinear_arith)
                requires
                    at == lo + a * (hi - lo),
            ;
        }
    }
}

/// The extension's sum over the first `n` points is affine in coordinate `k`.
pub proof fn lemma_sum_affine(t: Seq<int>, z: Seq<int>, k: int, a: int, n: nat)
    requires
        0 <= k < z.len(),
    ensures
        mle_sum_upto(t, z.update(k, a), n) == mle_sum_upto(t, z.update(k, 0), n) + a * (
        mle_sum_upto(t, z.update(k, 1), n) - mle_sum_upto(t, z.update(k, 0), n)),
    decreases n,
{
    if n == 0 {
        assert(a * 0 == 0);
    } else {
        let m = (n - 1) as nat;
        lemma_sum_affine(t, z, k, a, m);
        lemma_basis_affine(m, z, k, a, z.len());
        let sa = mle_sum_upto(t, z.update(k, a), m);
        let s0 = mle_sum_upto(t, z.update(k, 0), m);
        let s1 = mle_sum_upto(t, z.update(k, 1), m);
        let ba = basis(m, z.update(k, a));
        let b0 = basis(m, z.update(k, 0));
        let b1 = basis(m, z.update(k, 1));
        let c = t[m as int];
        assert(sa + c * ba == (s0 + c * b0) + a * ((s1 + c * b1) - (s0 + c * b0)))
            by (nonlinear_arith)
            requires
                sa == s0 + a * (s1 - s0),
                ba == b0 + a * (b1 - b0),
        ;
    }
}

/// Multilinearity over the integers: with every coordinate but `k` held
/// fixed, the extension is an affine function of coordinate `k`. Its
/// value at `a` lies on the line through its values at zero and at one.
pub proof fn lemma_multilinear(t: Seq<int>, z: Seq<int>, k: int, a: int)
    requires
        0 <= k < z.len(),
    ensures
        mle_sum(t, z.update(k, a)) == mle_sum(t, z.update(k, 0)) + a * (mle_sum(
            t,
            z.update(k, 1),
        ) - mle_sum(t, z.update(k, 0))),
{
    lemma_sum_affine(t, z, k, a, t.len());
}

/// Multilinearity in the field: with every coordinate of `z` but `k` held
/// fixed, the value of the extension at coordinate `x` is
/// `c0 + x * (c1 - c0)`, where `c0` and `c1` are its values at the
/// coordinates zero and one.
pub proof fn lemma_multilinear_in_field<F: Field>(
    t: Seq<F>,
    z: Seq<F>,
    k: int,
    x: F,
    zero: F,
    one: F,
)
    requires
        0 <= k < z.len(),
        zero.value() == 0,
        one.value() == 1,
    ensures
        mle_value(t, z.update(k, x)) == (mle_value(t, z.update(k, zero)) + x.value() * (mle_value(
            t,
            z.update(k, one),
        ) - mle_value(t, z.update(k, zero)))) % F::modulus(),
{
    let m = F::modulus();
    F::lemma_modulus_bound();
    let vt = values(t);
    let vz = values(z);
    let a = x.value();
    assert(values(z.update(k, x)) =~= vz.update(k, a));
    assert(values(z.update(k, zero)) =~= vz.update(k, 0));
    assert(values(z.update(k, one)) =~= vz.update(k, 1));
    lemma_multilinear(vt, vz, k, a);
    let s0 = mle_sum(vt, vz.update(k, 0));
    let s1 = mle_sum(vt, vz.update(k, 1));
    lemma_sub_mod_noop(s1, s0, m);
    lemma_mul_mod_noop_right(a, s1 - s0, m);
    lemma_mul_mod_noop_right(a, (s1 % m) - (s0 % m), m);
    lemma_add_mod_noop(s0, a * (s1 - s0), m);
    lemma_add_mod_noop(s0 % m, a * ((s1 % m) - (s0 % m)), m);
    lemma_small_mod((s0 % m) as nat, m as nat);
}

/// Order-independence: two lists of oracle entries that hold the same
/// entries, each as often as the other, add up to the same sum.
pub proof fn lemma_order_independent<F: Field>(
    e1: Seq<(usize, F)>,
    e2: Seq<(usize, F)>,
    z: Seq<int>,
)
    requires
        e1.to_multiset() == e2.to_multiset(),
    ensures
        entries_sum(e1, z) == entries_sum(e2, z),
    decreases e1.len(),
{
    broadcast use vstd::seq_lib::group_to_multiset_ensures;

    e1.to_multiset_ensures();
    e2.to_multiset_ensures();
    if e1.len() == 0 {
        assert(e2.len() == 0);
    } else {
        let x = e1.last();
        assert(e1.contains(x));
        assert(e2.to_multiset().count(x) > 0);
        assert(e2.contains(x));
        let p = choose|p: int| 0 <= p < e2.len() && e2[p] == x;
        assert(e1.remove(e1.len() - 1) =~= e1.drop_last());
        vstd::seq_lib::to_multiset_remove(e1, e1.len() - 1);
        vstd::seq_lib::to_multiset_remove(e2, p);
        lemma_order_independent(e1.drop_last(), e2.remove(p), z);
        lemma_entries_sum_remove(e2, z, p);
        assert(entry_term(x, z) == x.1.value() * basis(x.0 as nat, z));
    }
}

} // verus!

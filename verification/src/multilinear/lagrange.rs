//! The multilinear Lagrange basis and the extension it spans, as integer
//! polynomials.
//!
//! Scalars stand for integers modulo the field's modulus, so what the
//! executable code computes is one of these polynomials, reduced.

use super::field::{values, Field};
use super::hypercube::{bit, lemma_bounded_set_len, lemma_full_set};
use super::traits::covers;
use vstd::arithmetic::div_mod::{lemma_add_mod_noop, lemma_mul_mod_noop, lemma_small_mod};
use vstd::prelude::*;

verus! {

/// One factor of the basis: `x` where the bit is set, `1 - x` where it is not.
pub open spec fn factor(set: bool, x: int) -> int {
    if set {
        x
    } else {
        1 - x
    }
}

/// The product of the first `n` factors of the basis polynomial of index `i`.
pub open spec fn basis_upto(i: nat, z: Seq<int>, n: nat) -> int
    decreases n,
{
    if n == 0 {
        1
    } else {
        basis_upto(i, z, (n - 1) as nat) * factor(bit(i, (n - 1) as nat) == 1, z[n - 1])
    }
}

/// The Lagrange basis polynomial of hypercube point `i`, at `z`.
pub open spec fn basis(i: nat, z: Seq<int>) -> int {
    basis_upto(i, z, z.len())
}

/// One factor of `eq`: `b * z + (1 - b) * (1 - z)`.
pub open spec fn eq_factor(b: int, z: int) -> int {
    b * z + (1 - b) * (1 - z)
}

/// The product of the first `n` factors of `eq(b, z)`.
pub open spec fn eq_poly_upto(b: Seq<int>, z: Seq<int>, n: nat) -> int
    decreases n,
{
    if n == 0 {
        1
    } else {
        eq_poly_upto(b, z, (n - 1) as nat) * eq_factor(b[n - 1], z[n - 1])
    }
}

/// `eq(b, z)`, the product of `b_j * z_j + (1 - b_j) * (1 - z_j)` over all `j`.
pub open spec fn eq_poly(b: Seq<int>, z: Seq<int>) -> int {
    eq_poly_upto(b, z, b.len())
}

/// The sum of `t[i] * basis(i, z)` over the first `n` hypercube points.
pub open spec fn mle_sum_upto(t: Seq<int>, z: Seq<int>, n: nat) -> int
    decreases n,
{
    if n == 0 {
        0
    } else {
        mle_sum_upto(t, z, (n - 1) as nat) + t[n - 1] * basis((n - 1) as nat, z)
    }
}

/// The multilinear extension of the table `t`, at `z`.
pub open spec fn mle_sum(t: Seq<int>, z: Seq<int>) -> int {
    mle_sum_upto(t, z, t.len())
}

/// The field element that the multilinear extension of `t` takes at `z`,
/// by its value.
pub open spec fn mle_value<F: Field>(t: Seq<F>, z: Seq<F>) -> int {
    mle_sum(values(t), values(z)) % F::modulus()
}

/// The sum of `value * basis(index, z)` over a list of oracle entries, in
/// the order of the list.
pub open spec fn entries_sum<F: Field>(e: Seq<(usize, F)>, z: Seq<int>) -> int
    decreases e.len(),
{
    if e.len() == 0 {
        0
    } else {
        entries_sum(e.drop_last(), z) + e.last().1.value() * basis(e.last().0 as nat, z)
    }
}

/// A reduced product of reduced numbers is the reduced product.
pub proof fn lemma_mul_reduced(a: int, b: int, x: int, y: int, m: int)
    requires
        m > 0,
        a == x % m,
        b == y % m,
    ensures
        (a * b) % m == (x * y) % m,
{
    lemma_mul_mod_noop(x, y, m);
}

/// A reduced sum of reduced numbers is the reduced sum.
pub proof fn lemma_add_reduced(a: int, b: int, x: int, y: int, m: int)
    requires
        m > 0,
        a == x % m,
        b == y % m,
    ensures
        (a + b) % m == (x + y) % m,
{
    lemma_add_mod_noop(x, y, m);
}

/// The value of a scalar is its own residue.
pub proof fn lemma_value_reduced<F: Field>(x: F)
    ensures
        x.value() == x.value() % F::modulus(),
        F::modulus() >= 2,
        1 == 1int % F::modulus(),
        0 == 0int % F::modulus(),
{
    F::lemma_modulus_bound();
    F::lemma_value_bound(x);
    lemma_small_mod(x.value() as nat, F::modulus() as nat);
    lemma_small_mod(1, F::modulus() as nat);
    lemma_small_mod(0, F::modulus() as nat);
}

/// The term that one oracle entry adds to the sum.
pub open spec fn entry_term<F: Field>(x: (usize, F), z: Seq<int>) -> int {
    x.1.value() * basis(x.0 as nat, z)
}

/// Taking one entry out of a list takes its term out of the sum.
pub proof fn lemma_entries_sum_remove<F: Field>(e: Seq<(usize, F)>, z: Seq<int>, p: int)
    requires
        0 <= p < e.len(),
    ensures
        entries_sum(e, z) == entries_sum(e.remove(p), z) + entry_term(e[p], z),
    decreases e.len(),
{
    if p == e.len() - 1 {
        assert(e.remove(p) =~= e.drop_last());
    } else {
        lemma_entries_sum_remove(e.drop_last(), z, p);
        assert(e.drop_last().remove(p) =~= e.remove(p).drop_last());
        assert(e.remove(p).last() == e.last());
    }
}

/// Entries that hold each of the first `n` points of a table once add up
/// to the extension's sum over those points.
pub proof fn lemma_entries_sum_upto<F: Field>(e: Seq<(usize, F)>, t: Seq<F>, z: Seq<int>, n: nat)
    requires
        n <= t.len(),
        e.len() == n,
        forall|k: int| 0 <= k < e.len() ==> (#[trigger] e[k]).0 < n && e[k].1 == t[e[k].0 as int],
        forall|k: int, l: int| 0 <= k < l < e.len() ==> (#[trigger] e[k]).0 != (#[trigger] e[l]).0,
    ensures
        entries_sum(e, z) == mle_sum_upto(values(t), z, n),
    decreases n,
{
    if n > 0 {
        let indices = Seq::new(n, |k: int| e[k].0);
        assert(indices.no_duplicates());
        indices.unique_seq_to_set();
        vstd::seq_lib::seq_to_set_is_finite(indices);
        assert forall|i: usize| indices.to_set().contains(i) implies i < n by {
            let k = choose|k: int| 0 <= k < indices.len() && indices[k] == i;
            assert(e[k].0 == i);
        }
        assert(n - 1 <= usize::MAX) by {
            lemma_bounded_set_len(indices.to_set(), (usize::MAX + 1) as nat);
        }
        lemma_full_set(indices.to_set(), n);
        let top = (n - 1) as usize;
        assert(indices.to_set().contains(top));
        let p = choose|p: int| 0 <= p < indices.len() && indices[p] == top;
        assert(e[p].0 == top);
        let rest = e.remove(p);
        assert(rest.len() == n - 1);
        assert forall|k: int| 0 <= k < rest.len() implies (#[trigger] rest[k]).0 < n - 1 && rest[k].1
            == t[rest[k].0 as int] by {
            if k < p {
                assert(rest[k] == e[k]);
            } else {
                assert(rest[k] == e[k + 1]);
            }
        }
        assert forall|k: int, l: int| 0 <= k < l < rest.len() implies (#[trigger] rest[k]).0 != (
        #[trigger] rest[l]).0 by {
            let k0 = if k < p { k } else { k + 1 };
            let l0 = if l < p { l } else { l + 1 };
            assert(rest[k] == e[k0]);
            assert(rest[l] == e[l0]);
        }
        lemma_entries_sum_upto(rest, t, z, (n - 1) as nat);
        lemma_entries_sum_remove(e, z, p);
        assert(values(t)[n - 1] == t[n - 1].value());
        assert(e[p].1 == t[n - 1]);
        assert(entry_term(e[p], z) == values(t)[n - 1] * basis((n - 1) as nat, z));
        assert(entries_sum(rest, z) == mle_sum_upto(values(t), z, (n - 1) as nat));
    }
}

/// Entries that cover a table add up to the table's extension.
pub proof fn lemma_entries_sum_covers<F: Field>(e: Seq<(usize, F)>, t: Seq<F>, z: Seq<int>)
    requires
        covers(e, t),
    ensures
        entries_sum(e, z) == mle_sum(values(t), z),
{
    lemma_entries_sum_upto(e, t, z, t.len());
}

} // verus!

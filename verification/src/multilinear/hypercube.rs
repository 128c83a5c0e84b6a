//! The Boolean hypercube: its points by index and by coordinates.
//!
//! Point `i` of `{0,1}^d` has coordinate `j` equal to bit `j` of `i`, the
//! least significant bit first.

use super::field::{is_bit, Field};
use vstd::arithmetic::div_mod::{
    lemma_div_denominator, lemma_fundamental_div_mod_converse, lemma_mod_breakdown,
    lemma_small_mod,
};
use vstd::arithmetic::power2::{lemma_pow2_adds, lemma_pow2_pos, lemma_pow2_unfold, pow2};
use vstd::prelude::*;

verus! {

/// Bit `j` of `i`, as zero or one.
pub open spec fn bit(i: nat, j: nat) -> int {
    ((i / pow2(j)) % 2) as int
}

/// The coordinates of point `i` of the `d`-dimensional hypercube.
pub open spec fn index_point(d: nat, i: nat) -> Seq<int> {
    Seq::new(d, |j: int| bit(i, j as nat))
}

/// Whether `b` is a point of the `d`-dimensional hypercube.
pub open spec fn cube_point<F: Field>(b: Seq<F>, d: nat) -> bool {
    &&& b.len() == d
    &&& forall|j: int| 0 <= j < b.len() ==> is_bit(#[trigger] b[j])
}

/// The number whose bits `0..n` are the first `n` coordinates of `b`.
pub open spec fn point_index_upto<F: Field>(b: Seq<F>, n: nat) -> nat
    decreases n,
{
    if n == 0 {
        0
    } else {
        point_index_upto(b, (n - 1) as nat) + if b[n - 1].value() == 1 {
            pow2((n - 1) as nat)
        } else {
            0
        }
    }
}

/// The index of the hypercube point with coordinates `b`.
pub open spec fn point_index<F: Field>(b: Seq<F>) -> nat {
    point_index_upto(b, b.len())
}

/// Whether `k` and `i` agree on their bits `0..n`.
pub open spec fn same_bits(k: nat, i: nat, n: nat) -> bool {
    forall|j: nat| j < n ==> bit(k, j) == bit(i, j)
}

/// A bit is zero or one.
pub proof fn lemma_bit_range(i: nat, j: nat)
    ensures
        bit(i, j) == 0 || bit(i, j) == 1,
{
    lemma_pow2_pos(j);
}

/// The low `n + 1` bits of `x` are its low `n` bits and bit `n`.
pub proof fn lemma_low_bits_step(x: nat, n: nat)
    ensures
        x % pow2(n + 1) == x % pow2(n) + pow2(n) * bit(x, n),
{
    lemma_pow2_pos(n);
    lemma_pow2_unfold(n + 1);
    lemma_mod_breakdown(x as int, pow2(n) as int, 2);
    assert(pow2(n) * 2 == pow2(n + 1));
}

/// Numbers that agree on their bits `0..n` agree modulo `2^n`.
pub proof fn lemma_same_bits_same_residue(k: nat, i: nat, n: nat)
    requires
        same_bits(k, i, n),
    ensures
        k % pow2(n) == i % pow2(n),
    decreases n,
{
    if n == 0 {
        vstd::arithmetic::power2::lemma2_to64();
        assert(pow2(0) == 1);
    } else {
        let m = (n - 1) as nat;
        assert(same_bits(k, i, m)) by {
            assert forall|j: nat| j < m implies bit(k, j) == bit(i, j) by {
                assert(j < n);
            }
        }
        lemma_same_bits_same_residue(k, i, m);
        lemma_low_bits_step(k, m);
        lemma_low_bits_step(i, m);
        assert(bit(k, m) == bit(i, m));
    }
}

/// Two indices of the `d`-dimensional hypercube with the same coordinates
/// are the same index.
pub proof fn lemma_bits_determine_index(k: nat, i: nat, d: nat)
    requires
        k < pow2(d),
        i < pow2(d),
        same_bits(k, i, d),
    ensures
        k == i,
{
    lemma_same_bits_same_residue(k, i, d);
    lemma_small_mod(k, pow2(d));
    lemma_small_mod(i, pow2(d));
}

/// Halving the quotient by `2^j` gives the quotient by `2^(j+1)`.
pub proof fn lemma_shift_step(i: nat, j: nat)
    ensures
        (i / pow2(j)) / 2 == i / pow2(j + 1),
{
    lemma_pow2_pos(j);
    lemma_pow2_unfold(j + 1);
    lemma_div_denominator(i as int, pow2(j) as int, 2);
    assert(pow2(j) * 2 == pow2(j + 1));
}

/// Adding a multiple of `2^m` leaves the bits below `m` as they are.
pub proof fn lemma_bit_below_added_power(x: nat, c: nat, m: nat, j: nat)
    requires
        j < m,
    ensures
        bit(x + c * pow2(m), j) == bit(x, j),
{
    let pj = pow2(j) as int;
    let h = pow2((m - j - 1) as nat) as int;
    lemma_pow2_pos(j);
    lemma_pow2_adds((m - j) as nat, j);
    lemma_pow2_unfold((m - j) as nat);
    let q = (x as int) / pj;
    let r = (x as int) % pj;
    vstd::arithmetic::div_mod::lemma_fundamental_div_mod(x as int, pj);
    let y = (x + c * pow2(m)) as int;
    assert(pow2(m) == 2 * h * pj);
    assert(y == (q + 2 * (c * h)) * pj + r) by (nonlinear_arith)
        requires
            y == x + c * pow2(m),
            pow2(m) == 2 * h * pj,
            x == pj * q + r,
    ;
    lemma_fundamental_div_mod_converse(y, pj, q + 2 * (c * h), r);
    assert(y / pj == q + 2 * (c * h));
    assert((q + 2 * (c * h)) % 2 == q % 2);
}

/// Adding `c * 2^m` to a number below `2^m` sets bit `m` to `c`.
pub proof fn lemma_bit_at_added_power(x: nat, c: nat, m: nat)
    requires
        x < pow2(m),
        c <= 1,
    ensures
        bit(x + c * pow2(m), m) == c,
        x + c * pow2(m) < pow2(m + 1),
{
    lemma_pow2_pos(m);
    lemma_pow2_unfold(m + 1);
    let y = (x + c * pow2(m)) as int;
    assert(y == c * pow2(m) + x);
    lemma_fundamental_div_mod_converse(y, pow2(m) as int, c as int, x as int);
    assert(c * pow2(m) <= pow2(m)) by (nonlinear_arith)
        requires
            c <= 1,
    ;
}

/// The index built from `n` Boolean coordinates is below `2^n`, and its
/// bits are those coordinates.
pub proof fn lemma_point_index_bits<F: Field>(b: Seq<F>, n: nat)
    requires
        n <= b.len(),
        forall|j: int| 0 <= j < n ==> is_bit(#[trigger] b[j]),
    ensures
        point_index_upto(b, n) < pow2(n),
        forall|j: nat| j < n ==> bit(point_index_upto(b, n), j) == #[trigger] b[j as int].value(),
    decreases n,
{
    if n == 0 {
        lemma_pow2_pos(0);
    } else {
        let m = (n - 1) as nat;
        lemma_point_index_bits(b, m);
        let x = point_index_upto(b, m);
        let c: nat = if b[m as int].value() == 1 { 1 } else { 0 };
        assert(is_bit(b[m as int]));
        assert(c * pow2(m) == if c == 1 { pow2(m) } else { 0 }) by (nonlinear_arith)
            requires
                c <= 1,
        ;
        assert(point_index_upto(b, n) == x + c * pow2(m));
        lemma_bit_at_added_power(x, c, m);
        assert forall|j: nat| j < n implies bit(point_index_upto(b, n), j) == #[trigger] b[j as int].value() by {
            if j < m {
                lemma_bit_below_added_power(x, c, m, j);
            }
        }
    }
}

/// The coordinates of point `i` are the coordinates of no other index: a
/// hypercube point whose values are the bits of `i` has index `i`.
pub proof fn lemma_point_index_of_index_point<F: Field>(b: Seq<F>, i: nat)
    requires
        i < pow2(b.len()),
        forall|j: int| 0 <= j < b.len() ==> (#[trigger] b[j]).value() == bit(i, j as nat),
    ensures
        cube_point(b, b.len()),
        point_index(b) == i,
{
    let d = b.len();
    assert forall|j: int| 0 <= j < d implies is_bit(#[trigger] b[j]) by {
        lemma_bit_range(i, j as nat);
    }
    lemma_point_index_bits(b, d);
    assert(same_bits(point_index(b), i, d)) by {
        assert forall|j: nat| j < d implies bit(point_index(b), j) == bit(i, j) by {
            assert(b[j as int].value() == bit(i, j));
        }
    }
    lemma_bits_determine_index(point_index(b), i, d);
}

/// The number `2^dim` of points of the hypercube, where it fits the machine
/// word.
pub fn checked_pow2(dim: usize) -> (r: Option<usize>)
    ensures
        pow2(dim as nat) <= usize::MAX ==> r == Some(pow2(dim as nat) as usize),
        pow2(dim as nat) > usize::MAX ==> r.is_none(),
{
    let mut acc: usize = 1;
    let mut j: usize = 0;
    proof {
        vstd::arithmetic::power2::lemma2_to64();
    }
    while j < dim
        invariant
            j <= dim,
            acc == pow2(j as nat),
        decreases dim - j,
    {
        proof {
            lemma_pow2_unfold((j + 1) as nat);
            if j + 1 < dim {
                vstd::arithmetic::power2::lemma_pow2_strictly_increases((j + 1) as nat, dim as nat);
            }
        }
        if acc > usize::MAX / 2 {
            return None;
        }
        acc = acc * 2;
        j += 1;
    }
    Some(acc)
}

/// A finite set of numbers below `n` has at most `n` elements.
pub proof fn lemma_bounded_set_len(s: Set<usize>, n: nat)
    requires
        s.finite(),
        forall|i: usize| s.contains(i) ==> i < n,
    ensures
        s.len() <= n,
    decreases n,
{
    if n == 0 {
        assert(s =~= Set::<usize>::empty());
    } else if n - 1 > usize::MAX {
        lemma_bounded_set_len(s, (n - 1) as nat);
    } else {
        let top = (n - 1) as usize;
        lemma_bounded_set_len(s.remove(top), (n - 1) as nat);
    }
}

/// A set of `n` numbers below `n` holds every number below `n`.
pub proof fn lemma_full_set(s: Set<usize>, n: nat)
    requires
        s.finite(),
        forall|i: usize| s.contains(i) ==> i < n,
        s.len() == n,
    ensures
        forall|i: usize| i < n ==> s.contains(i),
    decreases n,
{
    if n > 0 {
        if n - 1 > usize::MAX {
            lemma_bounded_set_len(s, (n - 1) as nat);
        } else {
            let top = (n - 1) as usize;
            if !s.contains(top) {
                lemma_bounded_set_len(s, (n - 1) as nat);
            }
            let rest = s.remove(top);
            lemma_full_set(rest, (n - 1) as nat);
            assert forall|i: usize| i < n implies s.contains(i) by {
                if i != top {
                    assert(rest.contains(i));
                }
            }
        }
    }
}

} // verus!

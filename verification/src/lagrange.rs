//! Lagrange weights for reconstruction at the origin.

use vstd::prelude::*;
use vstd::arithmetic::div_mod::{lemma_mod_add_multiples_vanish, lemma_small_mod};
use crate::error::ThresholdError;
use crate::field::{inverse, invertible, is_inverse, lemma_modulus_exceeds_u64, q, Scalar};
use crate::modular::{
    lemma_cong_mul, lemma_cong_reduce, lemma_cong_small, lemma_inverse_cong,
    lemma_inverse_unique,
};

verus! {

/// The factor that an entry `j` of the point list contributes to the
/// numerator of the weight of `i`: `-j`, except that the first entry
/// equal to `i` stands for the point itself and contributes nothing.
/// `seen` says whether `i` occurred among the entries before.
pub open spec fn num_factor(i: int, j: int, seen: bool) -> int {
    if j == i && !seen {
        1
    } else {
        -j
    }
}

/// The factor that an entry `j` of the point list contributes to the
/// denominator of the weight of `i`: `i - j`, except that the first entry
/// equal to `i` stands for the point itself and contributes nothing.
/// A second entry equal to `i` contributes zero.
pub open spec fn den_factor(i: int, j: int, seen: bool) -> int {
    if j == i && !seen {
        1
    } else {
        i - j
    }
}

/// The product of `-j` over the entries `j` of `xs` other than the first
/// occurrence of `i`.
pub open spec fn lagrange_num(i: int, xs: Seq<int>) -> int
    decreases xs.len(),
{
    if xs.len() == 0 {
        1
    } else {
        lagrange_num(i, xs.drop_last()) * num_factor(i, xs.last(), xs.drop_last().contains(i))
    }
}

/// The product of `i - j` over the entries `j` of `xs` other than the
/// first occurrence of `i`.
pub open spec fn lagrange_den(i: int, xs: Seq<int>) -> int
    decreases xs.len(),
{
    if xs.len() == 0 {
        1
    } else {
        lagrange_den(i, xs.drop_last()) * den_factor(i, xs.last(), xs.drop_last().contains(i))
    }
}

/// The weight of the point `i` among the points `xs` for reconstruction at
/// the origin: numerator times the inverse of the denominator, reduced.
/// Meaningful when the denominator is invertible.
pub open spec fn lagrange_weight(i: int, xs: Seq<int>) -> int {
    (lagrange_num(i, xs) * inverse(lagrange_den(i, xs))) % q()
}

/// The point `i` occurs at two places of `xs`.
pub open spec fn occurs_twice(i: int, xs: Seq<int>) -> bool {
    exists|a: int, b: int| 0 <= a < b < xs.len() && xs[a] == i && xs[b] == i
}

/// Participant indices as integers.
pub open spec fn index_values(s: Seq<usize>) -> Seq<int> {
    Seq::new(s.len(), |k: int| s[k] as int)
}

/// Whether some index occurs twice in `indices`.
pub fn has_duplicate(indices: &[usize]) -> (found: bool)
    ensures
        found == !index_values(indices@).no_duplicates(),
{
    let ghost xs = index_values(indices@);
    let mut i: usize = 0;
    while i < indices.len()
        invariant
            i <= indices.len(),
            xs == index_values(indices@),
            forall|a: int, b: int| 0 <= a < i && a < b < xs.len() ==> xs[a] != xs[b],
        decreases indices.len() - i,
    {
        let mut j: usize = i + 1;
        while j < indices.len()
            invariant
                i < j <= indices.len(),
                xs == index_values(indices@),
                forall|b: int| i < b < j ==> xs[i as int] != xs[b],
            decreases indices.len() - j,
        {
            if indices[i] == indices[j] {
                assert(xs[i as int] == xs[j as int]);
                return true;
            }
            j += 1;
        }
        i += 1;
    }
    assert forall|a: int, b: int| 0 <= a < xs.len() && 0 <= b < xs.len() && a != b implies xs[a]
        != xs[b] by {
        if a < b {
            assert(xs[a] != xs[b]);
        } else {
            assert(xs[b] != xs[a]);
        }
    }
    false
}

/// Among distinct points none occurs twice.
pub proof fn lemma_distinct_never_twice(i: int, xs: Seq<int>)
    requires
        xs.no_duplicates(),
    ensures
        !occurs_twice(i, xs),
{
    if occurs_twice(i, xs) {
        let (a, b) = choose|a: int, b: int| 0 <= a < b < xs.len() && xs[a] == i && xs[b] == i;
        assert(xs[a] == xs[b]);
    }
}

/// Two different machine integers differ modulo the field order.
proof fn lemma_difference_nonzero(i: usize, j: usize)
    requires
        i != j,
    ensures
        (i - j) % q() != 0,
{
    lemma_modulus_exceeds_u64();
    let d = i - j;
    if d > 0 {
        lemma_small_mod(d as nat, q() as nat);
    } else {
        lemma_mod_add_multiples_vanish(d, q());
        lemma_small_mod((q() + d) as nat, q() as nat);
    }
}

/// How membership and repetition of `i` change when a prefix grows by one entry.
proof fn lemma_prefix_step(i: int, xs: Seq<int>, k: int)
    requires
        0 <= k < xs.len(),
    ensures
        xs.take(k + 1).drop_last() == xs.take(k),
        xs.take(k + 1).last() == xs[k],
        xs.take(k + 1).contains(i) <==> xs.take(k).contains(i) || xs[k] == i,
        occurs_twice(i, xs.take(k + 1)) <==> occurs_twice(i, xs.take(k)) || (xs[k] == i
            && xs.take(k).contains(i)),
{
    let longer = xs.take(k + 1);
    let shorter = xs.take(k);
    assert(longer.drop_last() =~= shorter);
    if xs[k] == i {
        assert(longer[k] == i);
        if shorter.contains(i) {
            let a = choose|a: int| 0 <= a < shorter.len() && shorter[a] == i;
            assert(longer[a] == i);
            assert(occurs_twice(i, longer));
        }
    } else if longer.contains(i) {
        let a = choose|a: int| 0 <= a < longer.len() && longer[a] == i;
        assert(shorter[a] == i);
    }
    if shorter.contains(i) {
        let a = choose|a: int| 0 <= a < shorter.len() && shorter[a] == i;
        assert(longer[a] == i);
    }
    if occurs_twice(i, shorter) {
        let (a, b) = choose|a: int, b: int|
            0 <= a < b < shorter.len() && shorter[a] == i && shorter[b] == i;
        assert(longer[a] == i && longer[b] == i);
    }
    if occurs_twice(i, longer) {
        let (a, b) = choose|a: int, b: int|
            0 <= a < b < longer.len() && longer[a] == i && longer[b] == i;
        assert(shorter[a] == i);
        if b < k {
            assert(shorter[b] == i);
        }
    }
}

/// Computes the Lagrange weight of participant `i` among the participants
/// `subset`, for reconstruction at the origin. The first entry of `subset`
/// equal to `i` stands for the participant itself; a second one makes the
/// denominator zero, and the computation fails. It fails in no other case.
pub fn lagrange_coeff(i: usize, subset: &[usize]) -> (r: Result<Scalar, ThresholdError>)
    ensures
        r is Err <==> occurs_twice(i as int, index_values(subset@)),
        r is Err <==> lagrange_den(i as int, index_values(subset@)) % q() == 0,
        r matches Err(e) ==> e == ThresholdError::DegenerateCoefficient,
        r matches Ok(w) ==> w.wf() && invertible(lagrange_den(i as int, index_values(subset@)))
            && w@ == lagrange_weight(i as int, index_values(subset@)),
{
    let ghost xs = index_values(subset@);
    let ghost iv = i as int;
    let mut num = Scalar::one();
    let mut den = Scalar::one();
    let mut skipped = false;
    let i_scalar = Scalar::embed(i as u64);
    let mut k: usize = 0;
    proof {
        assert(xs.take(0) =~= Seq::<int>::empty());
        lemma_cong_small(1, 1);
    }
    while k < subset.len()
        invariant
            k <= subset.len(),
            xs == index_values(subset@),
            iv == i as int,
            num.wf(),
            den.wf(),
            i_scalar.wf(),
            i_scalar@ == iv,
            skipped == xs.take(k as int).contains(iv),
            num@ == lagrange_num(iv, xs.take(k as int)) % q(),
            den@ == lagrange_den(iv, xs.take(k as int)) % q(),
            den@ == 0 <==> occurs_twice(iv, xs.take(k as int)),
        decreases subset.len() - k,
    {
        let j = subset[k];
        proof {
            lemma_prefix_step(iv, xs, k as int);
            assert(xs[k as int] == j as int);
        }
        if j == i && !skipped {
            proof {
                let n0 = lagrange_num(iv, xs.take(k as int));
                let d0 = lagrange_den(iv, xs.take(k as int));
                assert(n0 * 1 == n0 && d0 * 1 == d0) by (nonlinear_arith);
            }
            skipped = true;
        } else {
            let j_scalar = Scalar::embed(j as u64);
            let minus_j = j_scalar.neg();
            let diff = i_scalar.sub(&j_scalar);
            let next_num = num.mul(&minus_j);
            let next_den = den.mul(&diff);
            proof {
                let jv = j as int;
                let n0 = lagrange_num(iv, xs.take(k as int));
                let d0 = lagrange_den(iv, xs.take(k as int));
                lemma_cong_reduce(-jv);
                lemma_cong_reduce(iv - jv);
                lemma_cong_reduce(n0);
                lemma_cong_reduce(d0);
                lemma_cong_mul(num@ as int, n0, minus_j@ as int, -jv);
                lemma_cong_mul(den@ as int, d0, diff@ as int, iv - jv);
                lemma_cong_reduce((num@ * minus_j@) as int);
                lemma_cong_reduce((den@ * diff@) as int);
                lemma_cong_small(next_num@ as int, n0 * (-jv));
                lemma_cong_small(next_den@ as int, d0 * (iv - jv));
                if j != i {
                    lemma_difference_nonzero(i, j);
                } else {
                    lemma_small_mod(0, q() as nat);
                }
                if den@ == 0 || diff@ == 0 {
                    assert(den@ * diff@ == 0) by (nonlinear_arith)
                        requires
                            den@ == 0 || diff@ == 0,
                    ;
                    lemma_small_mod(0, q() as nat);
                }
            }
            num = next_num;
            den = next_den;
        }
        k += 1;
    }
    proof {
        assert(xs.take(subset@.len() as int) =~= xs);
    }
    match den.invert() {
        Some(inv) => {
            let w = num.mul(&inv);
            proof {
                let n = lagrange_num(iv, xs);
                let d = lagrange_den(iv, xs);
                lemma_cong_reduce(d);
                assert(is_inverse(den@ as int, inv@ as int));
                lemma_inverse_cong(den@ as int, d, inv@ as int);
                lemma_inverse_unique(d, inv@ as int);
                lemma_cong_reduce(n);
                lemma_cong_mul(num@ as int, n, inv@ as int, inv@ as int);
                lemma_cong_reduce((num@ * inv@) as int);
                lemma_cong_small(w@ as int, n * inverse(d));
            }
            Ok(w)
        },
        None => Err(ThresholdError::DegenerateCoefficient),
    }
}

} // verus!

//! The sharing law: Lagrange-weighted evaluations of a polynomial give its
//! value at the origin.
//!
//! The law is proved in the ring of integers modulo the field order, for
//! evaluation points whose weights are defined, that is whose denominators
//! are invertible. [`crate::lagrange::lagrange_coeff`] establishes exactly
//! that for each weight it returns.

use vstd::prelude::*;
use crate::error::ThresholdError;
use crate::field::{inverse, invertible, is_inverse, lemma_modulus_exceeds_u64, q, Scalar};
use crate::lagrange::{
    den_factor, has_duplicate, index_values, lagrange_coeff, lagrange_den, lagrange_num,
    lagrange_weight, lemma_distinct_never_twice, num_factor,
};
use crate::modular::{
    cong, lemma_cancel, lemma_cong_add, lemma_cong_mul, lemma_cong_reduce, lemma_cong_small,
    lemma_cong_sub, lemma_factor_invertible, lemma_inverse_unique, lemma_sum_cong,
    lemma_sum_front, lemma_sum_linear, seq_sum,
};
use crate::polynomial::{lemma_poly_division, poly_quotient, poly_value};

verus! {

/// The weight of every point of `xs` is defined: its denominator is invertible.
pub open spec fn weights_defined(xs: Seq<int>) -> bool {
    forall|k: int| 0 <= k < xs.len() ==> invertible(lagrange_den(#[trigger] xs[k], xs))
}

/// The weights of the points of `xs`, in order.
pub open spec fn weights(xs: Seq<int>) -> Seq<int> {
    Seq::new(xs.len(), |k: int| lagrange_weight(xs[k], xs))
}

/// The weighted values: the weight of each point times the value given for it.
pub open spec fn weighted_terms(xs: Seq<int>, ys: Seq<int>) -> Seq<int> {
    Seq::new(xs.len(), |k: int| lagrange_weight(xs[k], xs) * ys[k])
}

/// The value at the origin reconstructed from the values `ys` at the points `xs`.
pub open spec fn interpolate_at_zero(xs: Seq<int>, ys: Seq<int>) -> int {
    seq_sum(weighted_terms(xs, ys)) % q()
}

/// The values of the polynomial `c` at the points `xs`.
pub open spec fn evaluations(c: Seq<int>, xs: Seq<int>) -> Seq<int> {
    Seq::new(xs.len(), |k: int| poly_value(c, xs[k]))
}

/// The numerator and denominator products with the first point split off.
proof fn lemma_products_front(i: int, xs: Seq<int>)
    requires
        xs.len() > 0,
        xs.no_duplicates(),
    ensures
        lagrange_num(i, xs) == num_factor(i, xs[0], false) * lagrange_num(i, xs.skip(1)),
        lagrange_den(i, xs) == den_factor(i, xs[0], false) * lagrange_den(i, xs.skip(1)),
    decreases xs.len(),
{
    let front = xs.drop_last();
    if xs.len() == 1 {
        assert(xs.skip(1) =~= Seq::<int>::empty());
        assert(front =~= Seq::<int>::empty());
        assert(!front.contains(i));
        let (nf, df) = (num_factor(i, xs[0], false), den_factor(i, xs[0], false));
        assert(1 * nf == nf * 1 && 1 * df == df * 1) by (nonlinear_arith);
    } else {
        lemma_products_front(i, front);
        let back = xs.skip(1).drop_last();
        assert(front.skip(1) =~= back);
        assert(xs.skip(1).last() == xs.last());
        assert(front[0] == xs[0]);
        // the last point meets the same situation with and without the first
        if xs.last() == i {
            assert forall|a: int| 0 <= a < front.len() implies front[a] != i by {
                assert(front[a] == xs[a]);
            }
            assert forall|a: int| 0 <= a < back.len() implies back[a] != i by {
                assert(back[a] == xs[a + 1]);
            }
        }
        let (nf, nl, nr) = (
            num_factor(i, xs[0], false),
            num_factor(i, xs.last(), front.contains(i)),
            lagrange_num(i, back),
        );
        let (df, dl, dr) = (
            den_factor(i, xs[0], false),
            den_factor(i, xs.last(), front.contains(i)),
            lagrange_den(i, back),
        );
        assert(nl == num_factor(i, xs.last(), back.contains(i)));
        assert(dl == den_factor(i, xs.last(), back.contains(i)));
        assert((nf * nr) * nl == nf * (nr * nl)) by (nonlinear_arith);
        assert((df * dr) * dl == df * (dr * dl)) by (nonlinear_arith);
    }
}

/// Removing one factor pair from a weight: if the numerator is `na * nf`
/// and the invertible denominator is `da * df`, then `da` is invertible and
/// the weight times `df` is congruent to the smaller weight times `nf`.
proof fn lemma_weight_factor(na: int, nf: int, da: int, df: int)
    requires
        invertible(da * df),
    ensures
        invertible(da),
        invertible(df),
        cong(
            ((na * nf) * inverse(da * df)) % q() * df,
            ((na * inverse(da)) % q()) * nf,
        ),
{
    let u = inverse(da * df);
    lemma_factor_invertible(da, df);
    assert(da * df == df * da) by (nonlinear_arith);
    lemma_factor_invertible(df, da);
    let v = inverse(da);
    lemma_cong_reduce(df * u);
    assert(cong(v, df * u));
    // left side
    lemma_cong_reduce((na * nf) * u);
    lemma_cong_mul(((na * nf) * u) % q(), (na * nf) * u, df, df);
    // right side
    lemma_cong_reduce(na * v);
    lemma_cong_mul(na, na, v, df * u);
    lemma_cong_mul((na * v) % q(), na * (df * u), nf, nf);
    assert(((na * nf) * u) * df == (na * (df * u)) * nf) by (nonlinear_arith);
}

/// The weight of a point among `xs`, related to its weight among `xs`
/// without the last point.
proof fn lemma_weight_drop_last(xs: Seq<int>, k: int)
    requires
        xs.no_duplicates(),
        0 <= k < xs.len() - 1,
        invertible(lagrange_den(xs[k], xs)),
    ensures
        invertible(lagrange_den(xs[k], xs.drop_last())),
        invertible(xs[k] - xs.last()),
        cong(
            lagrange_weight(xs[k], xs) * (xs[k] - xs.last()),
            lagrange_weight(xs[k], xs.drop_last()) * (-xs.last()),
        ),
{
    let i = xs[k];
    let z = xs.last();
    assert(z != i);
    lemma_weight_factor(
        lagrange_num(i, xs.drop_last()),
        -z,
        lagrange_den(i, xs.drop_last()),
        i - z,
    );
}

/// The weight of a point among `xs`, related to its weight among `xs`
/// without the first point.
proof fn lemma_weight_drop_first(xs: Seq<int>, k: int)
    requires
        xs.no_duplicates(),
        1 <= k < xs.len(),
        invertible(lagrange_den(xs[k], xs)),
    ensures
        invertible(lagrange_den(xs[k], xs.skip(1))),
        invertible(xs[k] - xs[0]),
        cong(
            lagrange_weight(xs[k], xs) * (xs[k] - xs[0]),
            lagrange_weight(xs[k], xs.skip(1)) * (-xs[0]),
        ),
{
    let i = xs[k];
    let a = xs[0];
    assert(a != i);
    lemma_products_front(i, xs);
    let (nb, db) = (lagrange_num(i, xs.skip(1)), lagrange_den(i, xs.skip(1)));
    assert((-a) * nb == nb * (-a)) by (nonlinear_arith);
    assert((i - a) * db == db * (i - a)) by (nonlinear_arith);
    lemma_weight_factor(nb, -a, db, i - a);
}

/// Removing the last point keeps the points distinct and the weights defined.
proof fn lemma_defined_drop_last(xs: Seq<int>)
    requires
        xs.no_duplicates(),
        weights_defined(xs),
        xs.len() > 0,
    ensures
        xs.drop_last().no_duplicates(),
        weights_defined(xs.drop_last()),
{
    let a = xs.drop_last();
    assert forall|k: int| 0 <= k < a.len() implies invertible(lagrange_den(#[trigger] a[k], a)) by {
        assert(a[k] == xs[k]);
        lemma_weight_drop_last(xs, k);
    }
}

/// Removing the first point keeps the points distinct and the weights defined.
proof fn lemma_defined_drop_first(xs: Seq<int>)
    requires
        xs.no_duplicates(),
        weights_defined(xs),
        xs.len() > 0,
    ensures
        xs.skip(1).no_duplicates(),
        weights_defined(xs.skip(1)),
{
    let b = xs.skip(1);
    assert forall|k: int| 0 <= k < b.len() implies invertible(lagrange_den(#[trigger] b[k], b)) by {
        assert(b[k] == xs[k + 1]);
        lemma_weight_drop_first(xs, k + 1);
    }
}

/// The weighted sum, against the last point: the sum of
/// `weight * (x - last) * y` over `xs` is congruent to `-last` times the
/// weighted sum of the `y` over `xs` without its last point.
proof fn lemma_sum_against_last(xs: Seq<int>, ys: Seq<int>)
    requires
        xs.no_duplicates(),
        weights_defined(xs),
        xs.len() > 0,
        ys.len() == xs.len(),
    ensures
        cong(
            seq_sum(
                Seq::new(
                    xs.len(),
                    |k: int| lagrange_weight(xs[k], xs) * (xs[k] - xs.last()) * ys[k],
                ),
            ),
            (-xs.last()) * seq_sum(weighted_terms(xs.drop_last(), ys.drop_last())),
        ),
{
    let z = xs.last();
    let a = xs.drop_last();
    let s = Seq::new(xs.len(), |k: int| lagrange_weight(xs[k], xs) * (xs[k] - xs.last()) * ys[k]);
    let t = weighted_terms(a, ys.drop_last());
    let scaled = Seq::new(a.len(), |k: int| (-z) * t[k]);
    assert(s.last() == 0) by {
        let w = lagrange_weight(z, xs);
        let y = ys.last();
        assert(w * (z - z) * y == 0) by (nonlinear_arith);
    }
    assert forall|k: int| 0 <= k < a.len() implies cong(#[trigger] s.drop_last()[k], scaled[k]) by {
        lemma_weight_drop_last(xs, k);
        let (w, wa, d, y) = (
            lagrange_weight(xs[k], xs),
            lagrange_weight(xs[k], a),
            xs[k] - z,
            ys[k],
        );
        assert(a[k] == xs[k]);
        lemma_cong_mul(w * d, wa * (-z), y, y);
        assert((wa * (-z)) * y == (-z) * (wa * y)) by (nonlinear_arith);
    }
    lemma_sum_cong(s.drop_last(), scaled);
    assert forall|k: int| 0 <= k < scaled.len() implies
        #[trigger] scaled[k] == (-z) * t[k] + 0 * t[k] by {
        assert(0 * t[k] == 0) by (nonlinear_arith);
    }
    lemma_sum_linear(t, t, scaled, -z, 0);
    assert(0 * seq_sum(t) == 0) by (nonlinear_arith);
}

/// The weighted sum, against the first point: the sum of
/// `weight * (x - first)` over `xs` is congruent to `-first` times the sum
/// of the weights of `xs` without its first point.
proof fn lemma_weights_against_first(xs: Seq<int>)
    requires
        xs.no_duplicates(),
        weights_defined(xs),
        xs.len() > 0,
    ensures
        cong(
            seq_sum(Seq::new(xs.len(), |k: int| lagrange_weight(xs[k], xs) * (xs[k] - xs[0]))),
            (-xs[0]) * seq_sum(weights(xs.skip(1))),
        ),
{
    let a = xs[0];
    let b = xs.skip(1);
    let s = Seq::new(xs.len(), |k: int| lagrange_weight(xs[k], xs) * (xs[k] - xs[0]));
    let t = weights(b);
    let scaled = Seq::new(b.len(), |k: int| (-a) * t[k]);
    lemma_sum_front(s);
    assert(s[0] == 0) by {
        let w = lagrange_weight(a, xs);
        assert(w * (a - a) == 0) by (nonlinear_arith);
    }
    assert forall|k: int| 0 <= k < b.len() implies cong(#[trigger] s.skip(1)[k], scaled[k]) by {
        lemma_weight_drop_first(xs, k + 1);
        assert(b[k] == xs[k + 1]);
        let wb = lagrange_weight(xs[k + 1], b);
        assert(wb * (-a) == (-a) * wb) by (nonlinear_arith);
    }
    lemma_sum_cong(s.skip(1), scaled);
    assert forall|k: int| 0 <= k < scaled.len() implies
        #[trigger] scaled[k] == (-a) * t[k] + 0 * t[k] by {
        assert(0 * t[k] == 0) by (nonlinear_arith);
    }
    lemma_sum_linear(t, t, scaled, -a, 0);
    assert(0 * seq_sum(t) == 0) by (nonlinear_arith);
}

/// The weights of distinct points sum to one.
pub proof fn lemma_weights_sum_to_one(xs: Seq<int>)
    requires
        xs.no_duplicates(),
        weights_defined(xs),
        xs.len() > 0,
    ensures
        cong(seq_sum(weights(xs)), 1),
    decreases xs.len(),
{
    lemma_modulus_exceeds_u64();
    let w = weights(xs);
    if xs.len() == 1 {
        let i = xs[0];
        assert(xs.drop_last() =~= Seq::<int>::empty());
        assert(lagrange_num(i, xs) == 1 && lagrange_den(i, xs) == 1) by {
            assert(lagrange_num(i, xs.drop_last()) == 1);
            assert(lagrange_den(i, xs.drop_last()) == 1);
            assert(xs.last() == i);
        }
        assert(is_inverse(1, 1)) by {
            vstd::arithmetic::div_mod::lemma_small_mod(1, q() as nat);
        }
        lemma_inverse_unique(1, 1);
        assert(w.drop_last() =~= Seq::<int>::empty());
        assert(w.last() == (1int * 1int) % q());
        assert(seq_sum(w.drop_last()) == 0);
        lemma_cong_reduce(1);
    } else {
        let a = xs[0];
        let z = xs.last();
        let n = xs.len() as int;
        lemma_defined_drop_last(xs);
        lemma_defined_drop_first(xs);
        lemma_weights_sum_to_one(xs.drop_last());
        lemma_weights_sum_to_one(xs.skip(1));
        // the sum against the last point
        let ones = Seq::new(xs.len(), |k: int| 1int);
        let sa = Seq::new(
            xs.len(),
            |k: int| lagrange_weight(xs[k], xs) * (xs[k] - xs.last()) * ones[k],
        );
        lemma_sum_against_last(xs, ones);
        let ta = weighted_terms(xs.drop_last(), ones.drop_last());
        assert(ta =~= weights(xs.drop_last())) by {
            assert forall|k: int| 0 <= k < ta.len() implies ta[k] == weights(xs.drop_last())[k] by {
                let x = lagrange_weight(xs.drop_last()[k], xs.drop_last());
                assert(x * 1 == x) by (nonlinear_arith);
            }
        }
        lemma_cong_mul(-z, -z, seq_sum(ta), 1);
        assert(cong(seq_sum(sa), -z)) by {
            assert((-z) * 1 == -z) by (nonlinear_arith);
        }
        // the sum against the first point
        let sb = Seq::new(xs.len(), |k: int| lagrange_weight(xs[k], xs) * (xs[k] - xs[0]));
        lemma_weights_against_first(xs);
        lemma_cong_mul(-a, -a, seq_sum(weights(xs.skip(1))), 1);
        assert(cong(seq_sum(sb), -a)) by {
            assert((-a) * 1 == -a) by (nonlinear_arith);
        }
        // (z - a) * w[k] == sb[k] - sa[k]
        let u = Seq::new(xs.len(), |k: int| (z - a) * w[k]);
        assert forall|k: int| 0 <= k < u.len() implies
            #[trigger] u[k] == 1 * sb[k] + (-1) * sa[k] by {
            let (x, wk) = (xs[k], lagrange_weight(xs[k], xs));
            assert((z - a) * wk == 1 * (wk * (x - a)) + (-1) * (wk * (x - z) * 1))
                by (nonlinear_arith);
        }
        lemma_sum_linear(sb, sa, u, 1, -1);
        assert forall|k: int| 0 <= k < u.len() implies
            #[trigger] u[k] == (z - a) * w[k] + 0 * w[k] by {
            assert(0 * w[k] == 0) by (nonlinear_arith);
        }
        lemma_sum_linear(w, w, u, z - a, 0);
        assert(0 * seq_sum(w) == 0) by (nonlinear_arith);
        assert(1 * seq_sum(sb) + (-1) * seq_sum(sa) == seq_sum(sb) - seq_sum(sa))
            by (nonlinear_arith);
        lemma_cong_sub(seq_sum(sb), -a, seq_sum(sa), -z);
        assert((z - a) * 1 == (-a) - (-z)) by (nonlinear_arith);
        assert(cong((z - a) * seq_sum(w), (z - a) * 1));
        // z - a is invertible: it divides the denominator of the last weight
        assert(invertible(z - a)) by {
            assert(xs[n - 1] == z);
            lemma_weight_drop_first(xs, n - 1);
        }
        lemma_cancel(z - a, seq_sum(w), 1);
    }
}

/// The sharing law for exact evaluations: the weighted sum of the values of
/// a polynomial at distinct points, no fewer than its coefficients, is
/// congruent to its value at the origin.
pub proof fn lemma_interpolation_exact(xs: Seq<int>, c: Seq<int>)
    requires
        xs.no_duplicates(),
        weights_defined(xs),
        c.len() <= xs.len(),
    ensures
        cong(seq_sum(weighted_terms(xs, evaluations(c, xs))), poly_value(c, 0)),
    decreases xs.len(),
{
    let ys = evaluations(c, xs);
    let terms = weighted_terms(xs, ys);
    let w = weights(xs);
    if c.len() == 0 {
        assert forall|k: int| 0 <= k < terms.len() implies
            #[trigger] terms[k] == 0 * w[k] + 0 * w[k] by {
            assert(lagrange_weight(xs[k], xs) * 0 == 0) by (nonlinear_arith);
            assert(0 * w[k] == 0) by (nonlinear_arith);
        }
        lemma_sum_linear(w, w, terms, 0, 0);
        assert(0 * seq_sum(w) == 0) by (nonlinear_arith);
    } else {
        let z = xs.last();
        let g = poly_quotient(c, z);
        let cz = poly_value(c, z);
        let gys = evaluations(g, xs);
        let rest = Seq::new(
            xs.len(),
            |k: int| lagrange_weight(xs[k], xs) * (xs[k] - xs.last()) * gys[k],
        );
        lemma_poly_division(c, z, 0);
        // each term splits along c(x) = c(z) + (x - z) * g(x)
        assert forall|k: int| 0 <= k < terms.len() implies
            #[trigger] terms[k] == cz * w[k] + 1 * rest[k] by {
            lemma_poly_division(c, z, xs[k]);
            let (wk, x, gx) = (lagrange_weight(xs[k], xs), xs[k], poly_value(g, xs[k]));
            assert(wk * (cz + (x - z) * gx) == cz * wk + 1 * (wk * (x - z) * gx))
                by (nonlinear_arith);
        }
        lemma_sum_linear(w, rest, terms, cz, 1);
        assert(1 * seq_sum(rest) == seq_sum(rest)) by (nonlinear_arith);
        lemma_weights_sum_to_one(xs);
        lemma_cong_mul(cz, cz, seq_sum(w), 1);
        // the rest is -z times the interpolation of g on the other points
        lemma_sum_against_last(xs, gys);
        lemma_defined_drop_last(xs);
        assert(gys.drop_last() =~= evaluations(g, xs.drop_last()));
        lemma_interpolation_exact(xs.drop_last(), g);
        let inner = seq_sum(weighted_terms(xs.drop_last(), gys.drop_last()));
        lemma_cong_mul(-z, -z, inner, poly_value(g, 0));
        lemma_cong_add(cz * seq_sum(w), cz * 1, seq_sum(rest), (-z) * poly_value(g, 0));
        assert(cz * 1 + (-z) * poly_value(g, 0) == cz + (0 - z) * poly_value(g, 0))
            by (nonlinear_arith);
    }
}

/// The sharing law: for distinct points `xs` whose weights are defined and
/// values `ys` congruent to the values of a polynomial with no more
/// coefficients than there are points, the reconstructed value is the
/// polynomial's value at the origin, reduced modulo the field order.
pub proof fn lemma_interpolation(xs: Seq<int>, ys: Seq<int>, c: Seq<int>)
    requires
        xs.no_duplicates(),
        weights_defined(xs),
        c.len() <= xs.len(),
        ys.len() == xs.len(),
        forall|k: int| 0 <= k < xs.len() ==> cong(#[trigger] ys[k], poly_value(c, xs[k])),
    ensures
        interpolate_at_zero(xs, ys) == poly_value(c, 0) % q(),
{
    let exact = weighted_terms(xs, evaluations(c, xs));
    let given = weighted_terms(xs, ys);
    assert forall|k: int| 0 <= k < given.len() implies cong(#[trigger] given[k], exact[k]) by {
        let wk = lagrange_weight(xs[k], xs);
        lemma_cong_mul(wk, wk, ys[k], poly_value(c, xs[k]));
    }
    lemma_sum_cong(given, exact);
    lemma_interpolation_exact(xs, c);
    lemma_cong_reduce(seq_sum(given));
}

/// The indices of the sample points, as integers.
pub open spec fn sample_indices(points: Seq<(usize, Scalar)>) -> Seq<int> {
    Seq::new(points.len(), |k: int| points[k].0 as int)
}

/// The values of the sample points, as integers.
pub open spec fn sample_values(points: Seq<(usize, Scalar)>) -> Seq<int> {
    Seq::new(points.len(), |k: int| points[k].1@ as int)
}

/// The values `ys` are, modulo the field order, the values of the
/// polynomial `c` at the points `xs`.
pub open spec fn lies_on(c: Seq<int>, xs: Seq<int>, ys: Seq<int>) -> bool {
    &&& ys.len() == xs.len()
    &&& forall|k: int| 0 <= k < xs.len() ==> cong(#[trigger] ys[k], poly_value(c, xs[k]))
}

/// Reconstructs the value at the origin from sample points, each a
/// participant index with the field element held for it: the sum of the
/// values, each multiplied by the Lagrange weight of its index. Fails
/// exactly when two points carry one index.
///
/// For samples of a polynomial with no more coefficients than there are
/// points, the result is the polynomial's constant coefficient.
pub fn interpolate_at_origin(points: &[(usize, Scalar)]) -> (res: Result<Scalar, ThresholdError>)
    requires
        forall|k: int| 0 <= k < points@.len() ==> (#[trigger] points@[k]).1.wf(),
    ensures
        res is Ok <==> sample_indices(points@).no_duplicates(),
        res matches Err(e) ==> e == ThresholdError::DuplicateIndex,
        res matches Ok(v) ==> v.wf() && weights_defined(sample_indices(points@)) && v@
            == interpolate_at_zero(sample_indices(points@), sample_values(points@)),
        res matches Ok(v) ==> forall|c: Seq<int>|
            c.len() <= points@.len() && #[trigger] lies_on(
                c,
                sample_indices(points@),
                sample_values(points@),
            ) ==> v@ == poly_value(c, 0) % q(),
{
    let ghost xs = sample_indices(points@);
    let ghost ys = sample_values(points@);
    let ghost terms = weighted_terms(xs, ys);
    let mut subset: Vec<usize> = Vec::new();
    let mut k: usize = 0;
    while k < points.len()
        invariant
            k <= points.len(),
            subset@.len() == k,
            forall|a: int| 0 <= a < k ==> subset@[a] == points@[a].0,
        decreases points.len() - k,
    {
        subset.push(points[k].0);
        k += 1;
    }
    assert(index_values(subset@) =~= xs);
    if has_duplicate(subset.as_slice()) {
        return Err(ThresholdError::DuplicateIndex);
    }
    let mut acc = Scalar::zero();
    let mut k: usize = 0;
    proof {
        assert(terms.take(0) =~= Seq::<int>::empty());
        lemma_cong_small(0, 0);
    }
    while k < points.len()
        invariant
            k <= points.len(),
            xs == sample_indices(points@),
            ys == sample_values(points@),
            terms == weighted_terms(xs, ys),
            index_values(subset@) == xs,
            xs.no_duplicates(),
            forall|a: int| 0 <= a < points@.len() ==> (#[trigger] points@[a]).1.wf(),
            acc.wf(),
            acc@ == seq_sum(terms.take(k as int)) % q(),
            forall|a: int| 0 <= a < k ==> invertible(lagrange_den(#[trigger] xs[a], xs)),
        decreases points.len() - k,
    {
        let point = &points[k];
        proof {
            assert(xs[k as int] == point.0 as int);
            lemma_distinct_never_twice(point.0 as int, xs);
        }
        match lagrange_coeff(point.0, subset.as_slice()) {
            Ok(lam) => {
                let term = lam.mul(&point.1);
                let next = acc.add(&term);
                proof {
                    let before = seq_sum(terms.take(k as int));
                    let y = point.1@ as int;
                    let w = lagrange_weight(xs[k as int], xs);
                    assert(xs[k as int] == point.0 as int);
                    assert(ys[k as int] == y);
                    assert(terms.take(k + 1).drop_last() =~= terms.take(k as int));
                    assert(terms.take(k + 1).last() == w * y);
                    lemma_cong_reduce(before);
                    lemma_cong_reduce(w * y);
                    lemma_cong_add(acc@ as int, before, term@ as int, w * y);
                    lemma_cong_reduce((acc@ + term@) as int);
                    lemma_cong_small(next@ as int, before + w * y);
                }
                acc = next;
            },
            Err(e) => {
                // not reached: the weight of an index among distinct indices is defined
                return Err(e);
            },
        }
        k += 1;
    }
    proof {
        assert(terms.take(points@.len() as int) =~= terms);
        assert forall|c: Seq<int>|
            c.len() <= points@.len() && #[trigger] lies_on(c, xs, ys) implies acc@ == poly_value(
            c,
            0,
        ) % q() by {
            lemma_interpolation(xs, ys, c);
        }
    }
    Ok(acc)
}

} // verus!

//! What the scheme guarantees: the shared point that the key holders
//! reconstruct is the one that encryption used, whichever sufficient set
//! of participants contributes, and so decryption returns the message.
//!
//! The laws are stated for participant sets whose Lagrange weights are
//! defined; [`crate::cipher::combine_shares`] establishes that for every
//! set it accepts.

use vstd::prelude::*;
use vstd::seq_lib::{commutative_foldl, lemma_fold_left_permutation};
use crate::cipher::{
    decryption, partial_exponents, partial_indices, shared_exponent, Ciphertext,
    PartialDecryption,
};
use crate::dkg::{
    is_dkg_output, lemma_sum_polynomial, lemma_value_at_origin, secret_sum, share_sum,
    sum_polynomial, uniform_degree, SecretShare,
};
use crate::field::{modulus, q};
use crate::group::Point;
use crate::interpolation::{
    interpolate_at_zero, lemma_interpolation, weighted_terms, weights_defined,
};
use crate::lagrange::{den_factor, lagrange_den, lagrange_num, lagrange_weight, num_factor};
use crate::modular::{cong, lemma_cong_mul, lemma_cong_reduce, lemma_cong_small, seq_sum};
use crate::polynomial::{lemma_poly_scale_value, poly_scale, poly_value};

verus! {

/// The partial decryption `p` is what the holder of one of `shares`
/// computes for the ciphertext `c`: the ephemeral point multiplied by the
/// share of participant `p.index`.
pub open spec fn is_partial_of(
    p: PartialDecryption,
    shares: Seq<SecretShare>,
    c: Ciphertext,
) -> bool {
    &&& 1 <= p.index <= shares.len()
    &&& p.point.wf()
    &&& p.point@ == (c.r@ * shares[p.index - 1].value@) % modulus()
}

/// Reconstruction in the exponent: values congruent to `r` times the
/// shares, at distinct indices no fewer than the threshold, interpolate to
/// `r` times the master secret. The master secret itself is not computed.
pub proof fn lemma_threshold_reconstruction(
    polys: Seq<Seq<int>>,
    t: nat,
    r: int,
    xs: Seq<int>,
    es: Seq<int>,
)
    requires
        uniform_degree(polys, t),
        xs.no_duplicates(),
        weights_defined(xs),
        xs.len() >= t,
        es.len() == xs.len(),
        forall|k: int| 0 <= k < xs.len() ==> cong(#[trigger] es[k], r * share_sum(polys, xs[k])),
    ensures
        interpolate_at_zero(xs, es) == (r * secret_sum(polys)) % q(),
{
    let f = sum_polynomial(polys, t);
    let rf = poly_scale(f, r);
    lemma_sum_polynomial(polys, t, 0);
    assert forall|k: int| 0 <= k < xs.len() implies
        cong(#[trigger] es[k], poly_value(rf, xs[k])) by {
        lemma_sum_polynomial(polys, t, xs[k]);
        lemma_poly_scale_value(f, r, xs[k]);
    }
    lemma_interpolation(xs, es, rf);
    lemma_poly_scale_value(f, r, 0);
    lemma_value_at_origin(f);
}

/// Consistency of key and shares: the shares of a key generation, taken at
/// distinct indices no fewer than the threshold, interpolate to the
/// exponent of the master public key, the master secret.
pub proof fn lemma_shares_interpolate_to_key(
    polys: Seq<Seq<int>>,
    n: nat,
    t: nat,
    key: Point,
    shares: Seq<SecretShare>,
    picked: Seq<int>,
)
    requires
        uniform_degree(polys, t),
        is_dkg_output(polys, n, key, shares),
        picked.len() >= t,
        picked.no_duplicates(),
        weights_defined(picked),
        forall|k: int| 0 <= k < picked.len() ==> 1 <= #[trigger] picked[k] <= n,
    ensures
        interpolate_at_zero(
            picked,
            Seq::new(picked.len(), |k: int| shares[picked[k] - 1].value@ as int),
        ) == key@,
{
    let values = Seq::new(picked.len(), |k: int| shares[picked[k] - 1].value@ as int);
    assert forall|k: int| 0 <= k < picked.len() implies cong(
        #[trigger] values[k],
        1 * share_sum(polys, picked[k]),
    ) by {
        let share = shares[picked[k] - 1];
        assert(share.value@ == share_sum(polys, picked[k]) % q());
        lemma_cong_reduce(share_sum(polys, picked[k]));
    }
    lemma_threshold_reconstruction(polys, t, 1, picked, values);
}

/// The exponents of correctly computed partial decryptions are congruent
/// to the ephemeral exponent times the shares.
proof fn lemma_partials_scale_shares(
    polys: Seq<Seq<int>>,
    n: nat,
    key: Point,
    shares: Seq<SecretShare>,
    c: Ciphertext,
    partials: Seq<PartialDecryption>,
)
    requires
        is_dkg_output(polys, n, key, shares),
        forall|k: int| 0 <= k < partials.len() ==> is_partial_of(#[trigger] partials[k], shares, c),
    ensures
        forall|k: int|
            0 <= k < partials.len() ==> cong(
                #[trigger] partial_exponents(partials)[k],
                c.r@ * share_sum(polys, partial_indices(partials)[k]),
            ),
{
    let xs = partial_indices(partials);
    let es = partial_exponents(partials);
    assert forall|k: int| 0 <= k < partials.len() implies cong(
        #[trigger] es[k],
        c.r@ * share_sum(polys, xs[k]),
    ) by {
        let p = partials[k];
        assert(is_partial_of(p, shares, c));
        let share = shares[p.index - 1];
        let exact = share_sum(polys, p.index as int);
        assert(share.value@ == exact % q());
        lemma_cong_reduce(exact);
        lemma_cong_mul(c.r@ as int, c.r@ as int, share.value@ as int, exact);
        lemma_cong_reduce((c.r@ * share.value@) as int);
    }
}

/// Threshold robustness: two sets of correctly computed partial
/// decryptions of one ciphertext, each with distinct indices and no
/// fewer than the threshold, reconstruct the same shared point.
pub proof fn lemma_subset_independence(
    polys: Seq<Seq<int>>,
    n: nat,
    t: nat,
    key: Point,
    shares: Seq<SecretShare>,
    c: Ciphertext,
    first: Seq<PartialDecryption>,
    second: Seq<PartialDecryption>,
)
    requires
        uniform_degree(polys, t),
        is_dkg_output(polys, n, key, shares),
        first.len() >= t,
        second.len() >= t,
        partial_indices(first).no_duplicates(),
        partial_indices(second).no_duplicates(),
        weights_defined(partial_indices(first)),
        weights_defined(partial_indices(second)),
        forall|k: int| 0 <= k < first.len() ==> is_partial_of(#[trigger] first[k], shares, c),
        forall|k: int| 0 <= k < second.len() ==> is_partial_of(#[trigger] second[k], shares, c),
    ensures
        interpolate_at_zero(partial_indices(first), partial_exponents(first))
            == interpolate_at_zero(partial_indices(second), partial_exponents(second)),
{
    lemma_partials_scale_shares(polys, n, key, shares, c, first);
    lemma_partials_scale_shares(polys, n, key, shares, c, second);
    lemma_threshold_reconstruction(
        polys,
        t,
        c.r@ as int,
        partial_indices(first),
        partial_exponents(first),
    );
    lemma_threshold_reconstruction(
        polys,
        t,
        c.r@ as int,
        partial_indices(second),
        partial_exponents(second),
    );
}

/// The partial decryptions come from one key generation with threshold
/// `t` whose master public key is `key`: each is what the holder of the
/// share with its index computes for the ciphertext `c`.
pub open spec fn correctly_generated(
    partials: Seq<PartialDecryption>,
    t: nat,
    key: Point,
    c: Ciphertext,
) -> bool {
    exists|polys: Seq<Seq<int>>, shares: Seq<SecretShare>|
        uniform_degree(polys, t) && #[trigger] is_dkg_output(polys, shares.len(), key, shares)
            && forall|k: int|
            0 <= k < partials.len() ==> is_partial_of(#[trigger] partials[k], shares, c)
}

/// Reconstruction of the shared point: correctly computed partial
/// decryptions with distinct indices, no fewer than the threshold, combine
/// to the point that encryption shared with the key holders, the master
/// public key multiplied by the ephemeral scalar.
pub proof fn lemma_shared_point(
    polys: Seq<Seq<int>>,
    n: nat,
    t: nat,
    key: Point,
    shares: Seq<SecretShare>,
    c: Ciphertext,
    partials: Seq<PartialDecryption>,
)
    requires
        uniform_degree(polys, t),
        is_dkg_output(polys, n, key, shares),
        partials.len() >= t,
        partial_indices(partials).no_duplicates(),
        weights_defined(partial_indices(partials)),
        forall|k: int| 0 <= k < partials.len() ==> is_partial_of(#[trigger] partials[k], shares, c),
    ensures
        interpolate_at_zero(partial_indices(partials), partial_exponents(partials))
            == shared_exponent(key@, c),
{
    let xs = partial_indices(partials);
    let es = partial_exponents(partials);
    let r = c.r@ as int;
    lemma_partials_scale_shares(polys, n, key, shares, c, partials);
    lemma_threshold_reconstruction(polys, t, r, xs, es);
    lemma_cong_reduce(secret_sum(polys));
    lemma_cong_mul(key@ as int, secret_sum(polys), r, r);
    assert(secret_sum(polys) * r == r * secret_sum(polys)) by (nonlinear_arith);
    lemma_cong_reduce((key@ * c.r@) as int);
    lemma_cong_small(shared_exponent(key@, c) as int, r * secret_sum(polys));
}

/// Correctness of threshold decryption: for a key and shares from one key
/// generation and a ciphertext that encryption under that key produced
/// for `plaintext`, any correctly computed partial decryptions with
/// distinct indices, no fewer than the threshold, combine to a point with
/// which decryption yields `plaintext`.
pub proof fn lemma_threshold_decryption(
    polys: Seq<Seq<int>>,
    n: nat,
    t: nat,
    key: Point,
    shares: Seq<SecretShare>,
    c: Ciphertext,
    plaintext: Seq<u8>,
    partials: Seq<PartialDecryption>,
)
    requires
        uniform_degree(polys, t),
        is_dkg_output(polys, n, key, shares),
        decryption(shared_exponent(key@, c), c) == Some(plaintext),
        partials.len() >= t,
        partial_indices(partials).no_duplicates(),
        weights_defined(partial_indices(partials)),
        forall|k: int| 0 <= k < partials.len() ==> is_partial_of(#[trigger] partials[k], shares, c),
    ensures
        decryption(
            interpolate_at_zero(partial_indices(partials), partial_exponents(partials)) as nat,
            c,
        ) == Some(plaintext),
{
    lemma_shared_point(polys, n, t, key, shares, c, partials);
}

/// The step of a sum over partial decryptions: adds what `g` gives for one.
pub open spec fn adding(g: spec_fn(PartialDecryption) -> int) -> spec_fn(
    int,
    PartialDecryption,
) -> int {
    |acc: int, p: PartialDecryption| acc + g(p)
}

/// The step of a product over partial decryptions: multiplies by what `g`
/// gives for one.
pub open spec fn multiplying(g: spec_fn(PartialDecryption) -> int) -> spec_fn(
    int,
    PartialDecryption,
) -> int {
    |acc: int, p: PartialDecryption| acc * g(p)
}

/// The sum of a sequence that `g` gives entry by entry, as a fold.
proof fn lemma_sum_as_fold(
    ps: Seq<PartialDecryption>,
    terms: Seq<int>,
    g: spec_fn(PartialDecryption) -> int,
)
    requires
        terms.len() == ps.len(),
        forall|k: int| 0 <= k < ps.len() ==> #[trigger] terms[k] == g(ps[k]),
    ensures
        seq_sum(terms) == ps.fold_left(0int, adding(g)),
    decreases ps.len(),
{
    if ps.len() > 0 {
        lemma_sum_as_fold(ps.drop_last(), terms.drop_last(), g);
    }
}

/// The numerator and the denominator of a weight among distinct indices,
/// as folds over the partial decryptions.
proof fn lemma_products_as_folds(i: int, ps: Seq<PartialDecryption>)
    requires
        partial_indices(ps).no_duplicates(),
    ensures
        lagrange_num(i, partial_indices(ps)) == ps.fold_left(
            1int,
            multiplying(|p: PartialDecryption| num_factor(i, p.index as int, false)),
        ),
        lagrange_den(i, partial_indices(ps)) == ps.fold_left(
            1int,
            multiplying(|p: PartialDecryption| den_factor(i, p.index as int, false)),
        ),
    decreases ps.len(),
{
    let xs = partial_indices(ps);
    if ps.len() > 0 {
        let front = partial_indices(ps.drop_last());
        assert(xs.drop_last() =~= front);
        assert forall|a: int, b: int|
            0 <= a < front.len() && 0 <= b < front.len() && a != b implies front[a] != front[b] by {
            assert(front[a] == xs[a] && front[b] == xs[b]);
        }
        if xs.last() == i {
            assert forall|a: int| 0 <= a < front.len() implies front[a] != i by {
                assert(front[a] == xs[a]);
            }
        }
        lemma_products_as_folds(i, ps.drop_last());
    }
}

/// The weights do not depend on the order of the partial decryptions.
proof fn lemma_weight_order_independent(
    i: int,
    first: Seq<PartialDecryption>,
    second: Seq<PartialDecryption>,
)
    requires
        first.to_multiset() == second.to_multiset(),
        partial_indices(first).no_duplicates(),
        partial_indices(second).no_duplicates(),
    ensures
        lagrange_weight(i, partial_indices(first)) == lagrange_weight(i, partial_indices(second)),
{
    let nf = multiplying(|p: PartialDecryption| num_factor(i, p.index as int, false));
    let df = multiplying(|p: PartialDecryption| den_factor(i, p.index as int, false));
    lemma_products_as_folds(i, first);
    lemma_products_as_folds(i, second);
    assert(commutative_foldl(nf)) by {
        assert forall|x: PartialDecryption, y: PartialDecryption, v: int| #[trigger]
            nf(nf(v, x), y) == nf(nf(v, y), x) by {
            let (a, b) = (
                num_factor(i, x.index as int, false),
                num_factor(i, y.index as int, false),
            );
            assert((v * a) * b == (v * b) * a) by (nonlinear_arith);
        }
    }
    assert(commutative_foldl(df)) by {
        assert forall|x: PartialDecryption, y: PartialDecryption, v: int| #[trigger]
            df(df(v, x), y) == df(df(v, y), x) by {
            let (a, b) = (
                den_factor(i, x.index as int, false),
                den_factor(i, y.index as int, false),
            );
            assert((v * a) * b == (v * b) * a) by (nonlinear_arith);
        }
    }
    lemma_fold_left_permutation(first, second, nf, 1int);
    lemma_fold_left_permutation(first, second, df, 1int);
}

/// Order independence: the same partial decryptions, with distinct
/// indices, combine to the same point in whatever order they are supplied.
pub proof fn lemma_order_independence(first: Seq<PartialDecryption>, second: Seq<PartialDecryption>)
    requires
        first.to_multiset() == second.to_multiset(),
        partial_indices(first).no_duplicates(),
        partial_indices(second).no_duplicates(),
    ensures
        interpolate_at_zero(partial_indices(first), partial_exponents(first))
            == interpolate_at_zero(partial_indices(second), partial_exponents(second)),
{
    let xs = partial_indices(first);
    let g = |p: PartialDecryption| lagrange_weight(p.index as int, xs) * (p.point@ as int);
    let terms = weighted_terms(xs, partial_exponents(first));
    let other = weighted_terms(partial_indices(second), partial_exponents(second));
    lemma_sum_as_fold(first, terms, g);
    assert forall|k: int| 0 <= k < second.len() implies #[trigger] other[k] == g(second[k]) by {
        lemma_weight_order_independent(second[k].index as int, first, second);
    }
    lemma_sum_as_fold(second, other, g);
    assert(commutative_foldl(adding(g))) by {
        assert forall|x: PartialDecryption, y: PartialDecryption, v: int| #[trigger]
            adding(g)(adding(g)(v, x), y) == adding(g)(adding(g)(v, y), x) by {}
    }
    lemma_fold_left_permutation(first, second, adding(g), 0int);
}

} // verus!

//! Distributed key generation.
//!
//! Each of `n` dealers holds one polynomial with `t` coefficients. A
//! participant's secret share is the sum of what every dealer's polynomial
//! gives at the participant's index; the master public key is the sum of
//! the dealers' public contributions. The master secret, the sum of the
//! constant coefficients, is never computed.

use vstd::prelude::*;
use crate::error::ThresholdError;
use crate::field::{q, Scalar};
use crate::group::Point;
use crate::modular::{lemma_cong_add, lemma_cong_reduce, lemma_cong_small};
use crate::polynomial::{lemma_poly_add_value, poly_add, poly_value, Polynomial};

verus! {

/// A participant's private share of the master secret.
#[derive(Clone, Copy, Debug)]
pub struct SecretShare {
    /// The participant's index, which is also the point at which the
    /// dealers' polynomials were evaluated.
    pub index: usize,
    /// The sum of the dealers' evaluations at `index`.
    pub value: Scalar,
}

impl SecretShare {
    /// The share value is canonical.
    pub open spec fn wf(&self) -> bool {
        self.value.wf()
    }
}

/// The coefficient sequences of the dealers' polynomials.
pub open spec fn dealer_views(dealers: Seq<Polynomial>) -> Seq<Seq<int>> {
    Seq::new(dealers.len(), |j: int| dealers[j]@)
}

/// Every dealer's polynomial is well formed.
pub open spec fn dealers_wf(dealers: Seq<Polynomial>) -> bool {
    forall|j: int| 0 <= j < dealers.len() ==> (#[trigger] dealers[j]).wf()
}

/// Every polynomial has exactly `t` coefficients, and `t` is at least one.
pub open spec fn uniform_degree(polys: Seq<Seq<int>>, t: nat) -> bool {
    t >= 1 && forall|j: int| 0 <= j < polys.len() ==> (#[trigger] polys[j]).len() == t
}

/// The sum of the values of all the polynomials at `x`, over the integers.
pub open spec fn share_sum(polys: Seq<Seq<int>>, x: int) -> int
    decreases polys.len(),
{
    if polys.len() == 0 {
        0
    } else {
        share_sum(polys.drop_last(), x) + poly_value(polys.last(), x)
    }
}

/// The sum of the constant coefficients of all the polynomials, over the
/// integers: the master secret before reduction.
pub open spec fn secret_sum(polys: Seq<Seq<int>>) -> int
    decreases polys.len(),
{
    if polys.len() == 0 {
        0
    } else {
        secret_sum(polys.drop_last()) + polys.last()[0]
    }
}

/// The master public key and the shares are what the polynomials `polys`
/// give for `n` participants: the key is the generator multiplied by the
/// sum of the constant coefficients, and participant `i + 1` holds the sum
/// of the polynomials' values at `i + 1`.
pub open spec fn is_dkg_output(
    polys: Seq<Seq<int>>,
    n: nat,
    key: Point,
    shares: Seq<SecretShare>,
) -> bool {
    &&& key.wf()
    &&& key@ == secret_sum(polys) % q()
    &&& shares.len() == n
    &&& forall|i: int|
        0 <= i < n ==> {
            &&& (#[trigger] shares[i]).index == i + 1
            &&& shares[i].wf()
            &&& shares[i].value@ == share_sum(polys, i + 1) % q()
        }
}

/// The sum of the polynomials, coefficient by coefficient.
pub open spec fn sum_polynomial(polys: Seq<Seq<int>>, t: nat) -> Seq<int>
    decreases polys.len(),
{
    if polys.len() == 0 {
        Seq::new(t, |k: int| 0int)
    } else {
        poly_add(sum_polynomial(polys.drop_last(), t), polys.last())
    }
}

/// A polynomial whose coefficients are all zero is zero everywhere.
proof fn lemma_zero_polynomial(t: nat, x: int)
    ensures
        poly_value(Seq::new(t, |k: int| 0int), x) == 0,
    decreases t,
{
    if t > 0 {
        let z = Seq::new(t, |k: int| 0int);
        assert(z.skip(1) =~= Seq::new((t - 1) as nat, |k: int| 0int));
        lemma_zero_polynomial((t - 1) as nat, x);
        assert(x * 0 == 0) by (nonlinear_arith);
    }
}

/// The value of a polynomial at the origin is its constant coefficient.
pub proof fn lemma_value_at_origin(c: Seq<int>)
    requires
        c.len() >= 1,
    ensures
        poly_value(c, 0) == c[0],
{
    assert(0 * poly_value(c.skip(1), 0) == 0) by (nonlinear_arith);
}

/// Linearity of sharing: the shares are the evaluations of one polynomial
/// with `t` coefficients, the sum of the dealers' polynomials, and its
/// constant coefficient is the master secret.
pub proof fn lemma_sum_polynomial(polys: Seq<Seq<int>>, t: nat, x: int)
    requires
        uniform_degree(polys, t),
    ensures
        sum_polynomial(polys, t).len() == t,
        poly_value(sum_polynomial(polys, t), x) == share_sum(polys, x),
        sum_polynomial(polys, t)[0] == secret_sum(polys),
    decreases polys.len(),
{
    if polys.len() == 0 {
        lemma_zero_polynomial(t, x);
    } else {
        lemma_sum_polynomial(polys.drop_last(), t, x);
        lemma_poly_add_value(sum_polynomial(polys.drop_last(), t), polys.last(), x);
    }
}

/// Combines the dealers' polynomials into the master public key and the
/// secret shares of participants `1..=n`.
pub fn aggregate(dealers: &[Polynomial], n: usize) -> (out: (Point, Vec<SecretShare>))
    requires
        dealers_wf(dealers@),
    ensures
        is_dkg_output(dealer_views(dealers@), n as nat, out.0, out.1@),
{
    let ghost polys = dealer_views(dealers@);
    // the master public key: the sum of the dealers' public contributions
    let mut key = Point::identity();
    let mut j: usize = 0;
    proof {
        assert(polys.take(0) =~= Seq::<Seq<int>>::empty());
        lemma_cong_small(0, 0);
    }
    while j < dealers.len()
        invariant
            j <= dealers.len(),
            polys == dealer_views(dealers@),
            dealers_wf(dealers@),
            key.wf(),
            key@ == secret_sum(polys.take(j as int)) % q(),
        decreases dealers.len() - j,
    {
        let contribution = dealers[j].public_contribution();
        let next = key.add(&contribution);
        proof {
            let before = secret_sum(polys.take(j as int));
            assert(polys.take(j + 1).drop_last() =~= polys.take(j as int));
            assert(polys.take(j + 1).last() == dealers@[j as int]@);
            lemma_cong_reduce(before);
            lemma_cong_add(key@ as int, before, contribution@ as int, contribution@ as int);
            lemma_cong_reduce((key@ + contribution@) as int);
            lemma_cong_small(next@ as int, before + contribution@);
        }
        key = next;
        j += 1;
    }
    proof {
        assert(polys.take(dealers@.len() as int) =~= polys);
    }
    // the secret shares: for each participant, the sum of the dealers' evaluations
    let mut shares: Vec<SecretShare> = Vec::new();
    let mut i: usize = 0;
    while i < n
        invariant
            i <= n,
            polys == dealer_views(dealers@),
            dealers_wf(dealers@),
            shares@.len() == i,
            forall|k: int|
                0 <= k < i ==> {
                    &&& (#[trigger] shares@[k]).index == k + 1
                    &&& shares@[k].wf()
                    &&& shares@[k].value@ == share_sum(polys, k + 1) % q()
                },
        decreases n - i,
    {
        let index = i + 1;
        let mut value = Scalar::zero();
        let mut j: usize = 0;
        proof {
            assert(polys.take(0) =~= Seq::<Seq<int>>::empty());
            lemma_cong_small(0, 0);
        }
        while j < dealers.len()
            invariant
                j <= dealers.len(),
                polys == dealer_views(dealers@),
                dealers_wf(dealers@),
                value.wf(),
                value@ == share_sum(polys.take(j as int), index as int) % q(),
            decreases dealers.len() - j,
        {
            let issued = dealers[j].evaluate(index);
            let next = value.add(&issued);
            proof {
                let before = share_sum(polys.take(j as int), index as int);
                let term = poly_value(dealers@[j as int]@, index as int);
                assert(polys.take(j + 1).drop_last() =~= polys.take(j as int));
                assert(polys.take(j + 1).last() == dealers@[j as int]@);
                lemma_cong_reduce(before);
                lemma_cong_reduce(term);
                lemma_cong_add(value@ as int, before, issued@ as int, term);
                lemma_cong_reduce((value@ + issued@) as int);
                lemma_cong_small(next@ as int, before + term);
            }
            value = next;
            j += 1;
        }
        proof {
            assert(polys.take(dealers@.len() as int) =~= polys);
        }
        shares.push(SecretShare { index, value });
        i += 1;
    }
    (key, shares)
}

/// The key and the shares come from some `n` polynomials with `t`
/// coefficients each, one per dealer.
pub open spec fn is_generated(n: nat, t: nat, key: Point, shares: Seq<SecretShare>) -> bool {
    exists|polys: Seq<Seq<int>>|
        polys.len() == n && uniform_degree(polys, t) && #[trigger] is_dkg_output(
            polys,
            n,
            key,
            shares,
        )
}

/// Runs the key generation for `n` participants with threshold `t`: every
/// dealer draws a fresh polynomial with `t` coefficients, and the
/// polynomials are combined and dropped. Fails only when the entropy
/// source fails.
pub fn generate(n: usize, t: usize) -> (r: Result<(Point, Vec<SecretShare>), ThresholdError>)
    requires
        1 <= t <= n,
    ensures
        r matches Ok(out) ==> is_generated(n as nat, t as nat, out.0, out.1@),
        r matches Err(e) ==> e == ThresholdError::RandomnessFailure,
{
    let mut dealers: Vec<Polynomial> = Vec::new();
    while dealers.len() < n
        invariant
            dealers@.len() <= n,
            t >= 1,
            dealers_wf(dealers@),
            forall|j: int| 0 <= j < dealers@.len() ==> (#[trigger] dealers@[j])@.len() == t,
        decreases n - dealers@.len(),
    {
        match Polynomial::random(t) {
            Ok(p) => {
                dealers.push(p);
            },
            Err(e) => {
                return Err(e);
            },
        }
    }
    let out = aggregate(dealers.as_slice(), n);
    proof {
        let polys = dealer_views(dealers@);
        assert(polys.len() == n);
        assert(uniform_degree(polys, t as nat));
        assert(is_dkg_output(polys, n as nat, out.0, out.1@));
        assert(is_generated(n as nat, t as nat, out.0, out.1@));
    }
    Ok(out)
}

} // verus!

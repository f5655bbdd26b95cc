//! Secret-sharing polynomials over the scalar field.

use vstd::prelude::*;
use vstd::arithmetic::power::pow;
use vstd::arithmetic::div_mod::lemma_small_mod;
use crate::error::ThresholdError;
use crate::field::{q, random_scalar, Scalar};
use crate::group::Point;
use crate::modular::{cong, lemma_cong_add, lemma_cong_mul, lemma_cong_reduce, lemma_cong_small};

verus! {

/// The value at `x` of the polynomial with coefficients `c`, lowest degree
/// first: `c[0] + c[1] * x + c[2] * x^2 + ...`, over the integers.
pub open spec fn poly_value(c: Seq<int>, x: int) -> int
    decreases c.len(),
{
    if c.len() == 0 {
        0
    } else {
        c[0] + x * poly_value(c.skip(1), x)
    }
}

/// The values of a sequence of field elements.
pub open spec fn scalar_values(s: Seq<Scalar>) -> Seq<int> {
    Seq::new(s.len(), |k: int| s[k]@ as int)
}

/// Every element of the sequence is canonical.
pub open spec fn all_wf(s: Seq<Scalar>) -> bool {
    forall|k: int| 0 <= k < s.len() ==> (#[trigger] s[k]).wf()
}

/// Appending the term of degree `i` to the first `i` terms.
pub proof fn lemma_poly_value_step(c: Seq<int>, x: int, i: int)
    requires
        0 <= i < c.len(),
    ensures
        poly_value(c.take(i + 1), x) == poly_value(c.take(i), x) + c[i] * pow(x, i as nat),
    decreases i,
{
    let d = c.skip(1);
    assert(c.take(i + 1).skip(1) =~= d.take(i));
    assert(c.take(i + 1)[0] == c[0]);
    if i == 0 {
        assert(c.take(0) =~= Seq::<int>::empty());
        assert(d.take(0) =~= Seq::<int>::empty());
        assert(poly_value(d.take(0), x) == 0);
        assert(pow(x, 0) == 1) by {
            reveal(pow);
        }
        assert(c[0] * 1 == c[0]) by (nonlinear_arith);
        assert(x * 0 == 0) by (nonlinear_arith);
    } else {
        assert(c.take(i).skip(1) =~= d.take(i - 1));
        assert(c.take(i)[0] == c[0]);
        lemma_poly_value_step(d, x, i - 1);
        let (a, b, e) = (poly_value(d.take(i - 1), x), c[i], pow(x, (i - 1) as nat));
        assert(d[i - 1] == b);
        assert(pow(x, i as nat) == x * e) by {
            reveal(pow);
        }
        assert(x * (a + b * e) == x * a + b * (x * e)) by (nonlinear_arith);
    }
}

/// The quotient of the polynomial `c` by the linear factor `x - z`.
pub open spec fn poly_quotient(c: Seq<int>, z: int) -> Seq<int>
    decreases c.len(),
{
    if c.len() <= 1 {
        Seq::empty()
    } else {
        seq![poly_value(c.skip(1), z)] + poly_quotient(c.skip(1), z)
    }
}

/// Division by a linear factor: `c(x) = c(z) + (x - z) * quotient(x)`, and the
/// quotient has one coefficient fewer.
pub proof fn lemma_poly_division(c: Seq<int>, z: int, x: int)
    ensures
        poly_value(c, x) == poly_value(c, z) + (x - z) * poly_value(poly_quotient(c, z), x),
        poly_quotient(c, z).len() == if c.len() == 0 { 0 } else { c.len() - 1 },
    decreases c.len(),
{
    let g = poly_quotient(c, z);
    if c.len() == 0 {
        assert((x - z) * 0 == 0) by (nonlinear_arith);
    } else if c.len() == 1 {
        assert(c.skip(1) =~= Seq::<int>::empty());
        assert(poly_value(c.skip(1), x) == 0);
        assert(poly_value(c.skip(1), z) == 0);
        assert(poly_value(g, x) == 0);
        assert((x - z) * 0 == 0) by (nonlinear_arith);
        assert(x * 0 == 0 && z * 0 == 0) by (nonlinear_arith);
    } else {
        let d = c.skip(1);
        lemma_poly_division(d, z, x);
        let h = poly_quotient(d, z);
        assert(g.skip(1) =~= h);
        assert(g[0] == poly_value(d, z));
        let (pz, hx) = (poly_value(d, z), poly_value(h, x));
        assert(poly_value(g, x) == pz + x * hx);
        assert(poly_value(d, x) == pz + (x - z) * hx);
        assert(poly_value(c, x) == c[0] + x * poly_value(d, x));
        assert(poly_value(c, z) == c[0] + z * pz);
        assert(x * (pz + (x - z) * hx) == z * pz + (x - z) * (pz + x * hx)) by (nonlinear_arith);
    }
}

/// The entrywise sum of two coefficient sequences of one length.
pub open spec fn poly_add(c: Seq<int>, d: Seq<int>) -> Seq<int> {
    Seq::new(c.len(), |k: int| c[k] + d[k])
}

/// Evaluation is additive in the coefficients.
pub proof fn lemma_poly_add_value(c: Seq<int>, d: Seq<int>, x: int)
    requires
        c.len() == d.len(),
    ensures
        poly_value(poly_add(c, d), x) == poly_value(c, x) + poly_value(d, x),
    decreases c.len(),
{
    if c.len() > 0 {
        lemma_poly_add_value(c.skip(1), d.skip(1), x);
        assert(poly_add(c, d).skip(1) =~= poly_add(c.skip(1), d.skip(1)));
        let (a, b) = (poly_value(c.skip(1), x), poly_value(d.skip(1), x));
        assert(x * (a + b) == x * a + x * b) by (nonlinear_arith);
    }
}

/// The polynomial `c` with every coefficient multiplied by `a`.
pub open spec fn poly_scale(c: Seq<int>, a: int) -> Seq<int> {
    Seq::new(c.len(), |k: int| a * c[k])
}

/// Evaluation commutes with scaling the coefficients.
pub proof fn lemma_poly_scale_value(c: Seq<int>, a: int, x: int)
    ensures
        poly_value(poly_scale(c, a), x) == a * poly_value(c, x),
    decreases c.len(),
{
    if c.len() > 0 {
        lemma_poly_scale_value(c.skip(1), a, x);
        assert(poly_scale(c, a).skip(1) =~= poly_scale(c.skip(1), a));
        let (c0, rest) = (c[0], poly_value(c.skip(1), x));
        assert(a * c0 + x * (a * rest) == a * (c0 + x * rest)) by (nonlinear_arith);
    } else {
        assert(a * 0 == 0) by (nonlinear_arith);
    }
}

/// Evaluates the polynomial with coefficients `coeffs`, lowest degree
/// first, at the point `x`.
pub fn eval_poly(coeffs: &[Scalar], x: Scalar) -> (res: Scalar)
    requires
        all_wf(coeffs@),
        x.wf(),
    ensures
        res.wf(),
        res@ == poly_value(scalar_values(coeffs@), x@ as int) % q(),
{
    let ghost c = scalar_values(coeffs@);
    let ghost xv = x@ as int;
    let mut res = Scalar::zero();
    let mut power = Scalar::one();
    let mut i: usize = 0;
    proof {
        reveal(pow);
        assert(c.take(0) =~= Seq::<int>::empty());
        lemma_cong_reduce(0);
        lemma_cong_small(0, 0);
        lemma_cong_small(1, 1);
    }
    while i < coeffs.len()
        invariant
            i <= coeffs.len(),
            c == scalar_values(coeffs@),
            xv == x@ as int,
            all_wf(coeffs@),
            x.wf(),
            res.wf(),
            power.wf(),
            res@ == poly_value(c.take(i as int), xv) % q(),
            power@ == pow(xv, i as nat) % q(),
        decreases coeffs.len() - i,
    {
        let term = coeffs[i].mul(&power);
        let next = res.add(&term);
        let next_power = power.mul(&x);
        proof {
            let ci = coeffs@[i as int]@ as int;
            let pi = pow(xv, i as nat);
            let before = poly_value(c.take(i as int), xv);
            assert(c[i as int] == ci);
            lemma_poly_value_step(c, xv, i as int);
            // term ≡ c_i * x^i
            lemma_cong_reduce(pi);
            lemma_cong_mul(ci, ci, power@ as int, pi);
            lemma_cong_reduce(ci * (power@ as int));
            // next ≡ before + c_i * x^i
            lemma_cong_reduce(before);
            lemma_cong_add(res@ as int, before, term@ as int, ci * pi);
            lemma_cong_reduce((res@ + term@) as int);
            lemma_cong_small(next@ as int, before + ci * pi);
            // next_power ≡ x^(i+1)
            reveal(pow);
            lemma_cong_mul(power@ as int, pi, xv, xv);
            lemma_cong_reduce((power@ * xv) as int);
            assert(pi * xv == xv * pi) by (nonlinear_arith);
            lemma_cong_small(next_power@ as int, pow(xv, (i + 1) as nat));
        }
        res = next;
        power = next_power;
        i += 1;
    }
    proof {
        assert(c.take(coeffs@.len() as int) =~= c);
    }
    res
}

/// A dealer's secret-sharing polynomial. Its constant coefficient is the
/// dealer's contribution to the master secret; the polynomial never leaves
/// the dealer, who hands out evaluations and one public point.
pub struct Polynomial {
    coeffs: Vec<Scalar>,
}

impl View for Polynomial {
    type V = Seq<int>;

    /// The coefficients as integers, lowest degree first.
    closed spec fn view(&self) -> Seq<int> {
        scalar_values(self.coeffs@)
    }
}

impl Polynomial {
    /// There is at least one coefficient and every coefficient is canonical.
    pub open spec fn wf(&self) -> bool {
        &&& self@.len() >= 1
        &&& forall|k: int| 0 <= k < self@.len() ==> 0 <= #[trigger] self@[k] < q()
    }

    /// The coefficients held are canonical field elements.
    proof fn lemma_coefficients_wf(&self)
        requires
            self.wf(),
        ensures
            self.coeffs@.len() >= 1,
            all_wf(self.coeffs@),
    {
        assert forall|k: int| 0 <= k < self.coeffs@.len() implies
            (#[trigger] self.coeffs@[k]).wf() by {
            assert(self@[k] == self.coeffs@[k]@);
        }
    }

    /// The polynomial with the given coefficients, lowest degree first;
    /// `None` when there are none.
    pub fn from_coefficients(coeffs: Vec<Scalar>) -> (r: Option<Polynomial>)
        requires
            all_wf(coeffs@),
        ensures
            r is Some <==> coeffs@.len() >= 1,
            r matches Some(p) ==> p.wf() && p@ == scalar_values(coeffs@),
    {
        if coeffs.len() == 0 {
            None
        } else {
            Some(Polynomial { coeffs })
        }
    }

    /// A polynomial with `t` coefficients drawn from the operating system's
    /// entropy source, that is of degree below `t`.
    pub fn random(t: usize) -> (r: Result<Polynomial, ThresholdError>)
        requires
            t >= 1,
        ensures
            r matches Ok(p) ==> p.wf() && p@.len() == t,
            r matches Err(e) ==> e == ThresholdError::RandomnessFailure,
    {
        let mut coeffs: Vec<Scalar> = Vec::new();
        while coeffs.len() < t
            invariant
                coeffs@.len() <= t,
                all_wf(coeffs@),
            decreases t - coeffs@.len(),
        {
            match random_scalar() {
                Ok(s) => {
                    coeffs.push(s);
                },
                Err(e) => {
                    return Err(e);
                },
            }
        }
        Ok(Polynomial { coeffs })
    }

    /// The number of coefficients, which is the threshold of the sharing.
    pub fn threshold(&self) -> (t: usize)
        ensures
            t == self@.len(),
    {
        self.coeffs.len()
    }

    /// The share issued to participant `index`: the value of the
    /// polynomial at `index`, in the field.
    pub fn evaluate(&self, index: usize) -> (r: Scalar)
        requires
            self.wf(),
        ensures
            r.wf(),
            r@ == poly_value(self@, index as int) % q(),
    {
        proof {
            self.lemma_coefficients_wf();
        }
        eval_poly(self.coeffs.as_slice(), Scalar::from_u64(index as u64))
    }

    /// The dealer's public contribution: the generator multiplied by the
    /// constant coefficient.
    pub fn public_contribution(&self) -> (r: Point)
        requires
            self.wf(),
        ensures
            r.wf(),
            r@ == self@[0],
    {
        proof {
            self.lemma_coefficients_wf();
        }
        let r = Point::generator().mul(&self.coeffs[0]);
        proof {
            lemma_small_mod(self.coeffs@[0]@, q() as nat);
        }
        r
    }
}

} // verus!

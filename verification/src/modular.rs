//! Congruence modulo the field order, and sums of integer sequences.

use vstd::prelude::*;
use vstd::arithmetic::div_mod::{
    lemma_add_mod_noop, lemma_mod_twice, lemma_mul_mod_noop_general, lemma_small_mod,
    lemma_sub_mod_noop,
};
use crate::field::{inverse, invertible, is_inverse, lemma_modulus_exceeds_u64, q};

verus! {

/// `a` and `b` leave the same remainder modulo the field order.
pub open spec fn cong(a: int, b: int) -> bool {
    a % q() == b % q()
}

/// Reducing a number does not change its residue class.
pub proof fn lemma_cong_reduce(a: int)
    ensures
        cong(a % q(), a),
        0 <= a % q() < q(),
{
    lemma_modulus_exceeds_u64();
    lemma_mod_twice(a, q());
}

/// A residue below the modulus is its own remainder.
pub proof fn lemma_cong_small(a: int, b: int)
    requires
        cong(a, b),
        0 <= a < q(),
    ensures
        a == b % q(),
{
    lemma_small_mod(a as nat, q() as nat);
}

/// Congruence is compatible with addition.
pub proof fn lemma_cong_add(a: int, b: int, c: int, d: int)
    requires
        cong(a, b),
        cong(c, d),
    ensures
        cong(a + c, b + d),
{
    lemma_modulus_exceeds_u64();
    lemma_add_mod_noop(a, c, q());
    lemma_add_mod_noop(b, d, q());
}

/// Congruence is compatible with subtraction.
pub proof fn lemma_cong_sub(a: int, b: int, c: int, d: int)
    requires
        cong(a, b),
        cong(c, d),
    ensures
        cong(a - c, b - d),
{
    lemma_modulus_exceeds_u64();
    lemma_sub_mod_noop(a, c, q());
    lemma_sub_mod_noop(b, d, q());
}

/// Congruence is compatible with multiplication.
pub proof fn lemma_cong_mul(a: int, b: int, c: int, d: int)
    requires
        cong(a, b),
        cong(c, d),
    ensures
        cong(a * c, b * d),
{
    lemma_modulus_exceeds_u64();
    lemma_mul_mod_noop_general(a, c, q());
    lemma_mul_mod_noop_general(b, d, q());
}

/// The product of a number with an inverse of it is congruent to one.
pub proof fn lemma_inverse_product(a: int, u: int)
    requires
        is_inverse(a, u),
    ensures
        cong(a * u, 1),
        cong(u * a, 1),
{
    lemma_modulus_exceeds_u64();
    lemma_small_mod(1, q() as nat);
    assert(a * u == u * a) by (nonlinear_arith);
}

/// An inverse of `a` is an inverse of everything congruent to `a`.
pub proof fn lemma_inverse_cong(a: int, b: int, u: int)
    requires
        cong(a, b),
        is_inverse(a, u),
    ensures
        is_inverse(b, u),
{
    lemma_cong_mul(a, b, u, u);
}

/// Inverses are unique: any inverse of an invertible number is the chosen one.
pub proof fn lemma_inverse_unique(a: int, u: int)
    requires
        is_inverse(a, u),
    ensures
        invertible(a),
        inverse(a) == u,
{
    let v = inverse(a);
    assert(is_inverse(a, v));
    lemma_inverse_product(a, u);
    lemma_inverse_product(a, v);
    // u == u * (a * v) == (u * a) * v == v, modulo the field order
    lemma_cong_mul(u, u, a * v, 1);
    lemma_cong_mul(a * u, 1, v, v);
    assert(u * (a * v) == (a * u) * v) by (nonlinear_arith);
    assert(cong(u * 1, 1 * v));
    lemma_small_mod(u as nat, q() as nat);
    lemma_small_mod(v as nat, q() as nat);
}

/// A factor of an invertible product is invertible, and its inverse is the
/// inverse of the product multiplied by the other factor.
pub proof fn lemma_factor_invertible(a: int, b: int)
    requires
        invertible(a * b),
    ensures
        invertible(a),
        inverse(a) == (b * inverse(a * b)) % q(),
{
    let u = inverse(a * b);
    assert(is_inverse(a * b, u));
    let v = (b * u) % q();
    lemma_cong_reduce(b * u);
    lemma_cong_mul(a, a, v, b * u);
    assert(a * (b * u) == (a * b) * u) by (nonlinear_arith);
    assert(is_inverse(a, v));
    lemma_inverse_unique(a, v);
}

/// Multiplication by an invertible number can be cancelled.
pub proof fn lemma_cancel(u: int, a: int, b: int)
    requires
        invertible(u),
        cong(u * a, u * b),
    ensures
        cong(a, b),
{
    let v = inverse(u);
    assert(is_inverse(u, v));
    lemma_inverse_product(u, v);
    lemma_cong_mul(v, v, u * a, u * b);
    assert(v * (u * a) == (u * v) * a) by (nonlinear_arith);
    assert(v * (u * b) == (u * v) * b) by (nonlinear_arith);
    lemma_cong_mul(u * v, 1, a, a);
    lemma_cong_mul(u * v, 1, b, b);
}

/// The sum of the entries of `s`.
pub open spec fn seq_sum(s: Seq<int>) -> int
    decreases s.len(),
{
    if s.len() == 0 {
        0
    } else {
        seq_sum(s.drop_last()) + s.last()
    }
}

/// Sums of entrywise congruent sequences are congruent.
pub proof fn lemma_sum_cong(s: Seq<int>, t: Seq<int>)
    requires
        s.len() == t.len(),
        forall|k: int| 0 <= k < s.len() ==> cong(#[trigger] s[k], t[k]),
    ensures
        cong(seq_sum(s), seq_sum(t)),
    decreases s.len(),
{
    if s.len() > 0 {
        lemma_sum_cong(s.drop_last(), t.drop_last());
        lemma_cong_add(seq_sum(s.drop_last()), seq_sum(t.drop_last()), s.last(), t.last());
    }
}

/// The sum is linear: if `u = alpha * s + beta * t` entrywise, the sums
/// are related in the same way.
pub proof fn lemma_sum_linear(s: Seq<int>, t: Seq<int>, u: Seq<int>, alpha: int, beta: int)
    requires
        s.len() == u.len(),
        t.len() == u.len(),
        forall|k: int| 0 <= k < u.len() ==> #[trigger] u[k] == alpha * s[k] + beta * t[k],
    ensures
        seq_sum(u) == alpha * seq_sum(s) + beta * seq_sum(t),
    decreases u.len(),
{
    if u.len() > 0 {
        lemma_sum_linear(s.drop_last(), t.drop_last(), u.drop_last(), alpha, beta);
        let (a, b, c, d) = (seq_sum(s.drop_last()), s.last(), seq_sum(t.drop_last()), t.last());
        assert(alpha * (a + b) + beta * (c + d) == (alpha * a + beta * c) + (alpha * b + beta * d))
            by (nonlinear_arith);
    } else {
        assert(alpha * 0 + beta * 0 == 0) by (nonlinear_arith);
    }
}

/// The sum with its first entry split off.
pub proof fn lemma_sum_front(s: Seq<int>)
    requires
        s.len() > 0,
    ensures
        seq_sum(s) == s[0] + seq_sum(s.skip(1)),
    decreases s.len(),
{
    if s.len() == 1 {
        assert(s.skip(1) =~= Seq::<int>::empty());
        assert(s.drop_last() =~= Seq::<int>::empty());
    } else {
        lemma_sum_front(s.drop_last());
        assert(s.drop_last().skip(1) =~= s.skip(1).drop_last());
        assert(s.skip(1).last() == s.last());
    }
}

} // verus!

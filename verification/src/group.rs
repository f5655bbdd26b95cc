//! The prime-order subgroup of the Jubjub curve.
//!
//! The subgroup is cyclic of order [`modulus`] and every element is a
//! multiple of one fixed generator. A [`Point`] is held as its canonical
//! 32-byte encoding and viewed as its exponent: the number `k` below the
//! modulus for which the point is the generator multiplied by `k`. The curve
//! arithmetic itself is done by the `jubjub` crate; each wrapper states its
//! result on exponents.

use vstd::prelude::*;
use crate::field::{modulus, Scalar};

verus! {

/// The canonical encoding of the generator multiplied by `k`: what
/// `to_bytes` returns for `SubgroupPoint::generator()` multiplied by the
/// scalar with value `k`.
pub uninterp spec fn point_encoding(k: nat) -> Seq<u8>;

/// `bytes` encodes `k` times the generator, with `k` below the modulus.
pub open spec fn encodes(bytes: Seq<u8>, k: nat) -> bool {
    k < modulus() && point_encoding(k) == bytes
}

/// `bytes` is the encoding of an element of the subgroup.
pub open spec fn is_point_encoding(bytes: Seq<u8>) -> bool {
    exists|k: nat| encodes(bytes, k)
}

/// An element of the prime-order subgroup.
#[derive(Clone, Copy, Debug)]
pub struct Point {
    bytes: [u8; 32],
}

impl View for Point {
    type V = nat;

    /// The exponent of the point with respect to the generator.
    open spec fn view(&self) -> nat {
        choose|k: nat| encodes(self.encoding(), k)
    }
}

impl Point {
    /// The canonical encoding.
    pub closed spec fn encoding(&self) -> Seq<u8> {
        self.bytes@
    }

    /// The bytes encode an element of the subgroup.
    pub open spec fn wf(&self) -> bool {
        is_point_encoding(self.encoding())
    }

    /// A well-formed point is the generator multiplied by its exponent, and
    /// two well-formed points with one exponent have one encoding.
    pub proof fn lemma_encoding_of_exponent(&self)
        requires
            self.wf(),
        ensures
            self@ < modulus(),
            self.encoding() == point_encoding(self@),
            self.encoding().len() == 32,
    {
    }

    /// The canonical encoding of the point.
    pub fn to_bytes(&self) -> (bytes: [u8; 32])
        ensures
            bytes@ == self.encoding(),
    {
        self.bytes
    }

    /// Decodes the canonical encoding of a subgroup element; any other byte
    /// string is refused.
    pub fn from_bytes(bytes: &[u8; 32]) -> (r: Option<Point>)
        ensures
            r is Some <==> is_point_encoding(bytes@),
            r matches Some(p) ==> p.encoding() == bytes@ && p.wf(),
    {
        Point::decode(bytes)
    }

    /// Trusted: `SubgroupPoint::from_bytes` of `group::GroupEncoding`
    /// accepts exactly the canonical encodings of elements of the
    /// prime-order subgroup, each of which is a multiple of the generator,
    /// and `to_bytes` gives that encoding back.
    #[verifier::external_body]
    pub(crate) fn decode(bytes: &[u8; 32]) -> (r: Option<Point>)
        ensures
            r is Some <==> is_point_encoding(bytes@),
            r matches Some(p) ==> p.encoding() == bytes@ && p.wf(),
    {
        let parsed: Option<jubjub::SubgroupPoint> =
            <jubjub::SubgroupPoint as group::GroupEncoding>::from_bytes(bytes).into();
        match parsed {
            Some(p) => Some(Point { bytes: group::GroupEncoding::to_bytes(&p) }),
            None => None,
        }
    }

    /// Trusted: `SubgroupPoint::identity` of `group::Group` is the neutral
    /// element, the generator multiplied by zero.
    #[verifier::external_body]
    pub(crate) fn identity() -> (r: Point)
        ensures
            r.wf(),
            r@ == 0,
    {
        let p = <jubjub::SubgroupPoint as group::Group>::identity();
        Point { bytes: group::GroupEncoding::to_bytes(&p) }
    }

    /// Trusted: `SubgroupPoint::generator` of `group::Group` is the fixed
    /// generator of the prime-order subgroup.
    #[verifier::external_body]
    pub(crate) fn generator() -> (r: Point)
        ensures
            r.wf(),
            r@ == 1,
    {
        let p = <jubjub::SubgroupPoint as group::Group>::generator();
        Point { bytes: group::GroupEncoding::to_bytes(&p) }
    }

    /// Trusted: `*` between `SubgroupPoint` and `Fr` is scalar
    /// multiplication in a group of order `modulus()`, so exponents
    /// multiply modulo the modulus: the result is the generator multiplied
    /// by the product of the point's exponent and the scalar.
    #[verifier::external_body]
    pub(crate) fn mul(&self, s: &Scalar) -> (r: Point)
        requires
            self.wf(),
            s.wf(),
        ensures
            r.wf(),
            r@ == (self@ * s@) % modulus(),
            r.encoding() == point_encoding((self@ * s@) % modulus()),
    {
        let p = <jubjub::SubgroupPoint as group::GroupEncoding>::from_bytes(&self.bytes).unwrap();
        let k = jubjub::Fr::from_bytes(&s.bytes).unwrap();
        Point { bytes: group::GroupEncoding::to_bytes(&(p * k)) }
    }

    /// Trusted: `+` on `SubgroupPoint` is the group law of a group of order
    /// `modulus()`, so exponents add modulo the modulus.
    #[verifier::external_body]
    pub(crate) fn add(&self, rhs: &Point) -> (r: Point)
        requires
            self.wf(),
            rhs.wf(),
        ensures
            r.wf(),
            r@ == (self@ + rhs@) % modulus(),
    {
        let a = <jubjub::SubgroupPoint as group::GroupEncoding>::from_bytes(&self.bytes).unwrap();
        let b = <jubjub::SubgroupPoint as group::GroupEncoding>::from_bytes(&rhs.bytes).unwrap();
        Point { bytes: group::GroupEncoding::to_bytes(&(a + b)) }
    }
}

} // verus!

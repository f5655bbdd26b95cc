//! The scalar field of the Jubjub curve.
//!
//! A [`Scalar`] is held as its canonical 32-byte little-endian encoding and
//! viewed as the natural number below [`modulus`] that the bytes spell.
//! The arithmetic itself is done by the `jubjub` crate; each operation is
//! reached through a wrapper whose contract states the result as ordinary
//! arithmetic modulo [`modulus`].

use vstd::prelude::*;
use crate::error::ThresholdError;
use crate::primitives::os_random;

verus! {

/// The order of the scalar field, which is also the order of the
/// prime-order subgroup of the curve.
pub closed spec fn modulus() -> nat {
    0x0e7db4ea6533afa906673b0101343b00a6682093ccc81082d0970e5ed6f72cb7nat
}

/// The modulus as an `int`, for arithmetic in contracts.
pub open spec fn q() -> int {
    modulus() as int
}

/// The modulus is larger than every 64-bit integer.
pub proof fn lemma_modulus_exceeds_u64()
    ensures
        modulus() > u64::MAX,
        q() > 1,
{
}

/// The number spelled by `bytes` read as little-endian base-256 digits.
pub open spec fn le_value(bytes: Seq<u8>) -> nat
    decreases bytes.len(),
{
    if bytes.len() == 0 {
        0
    } else {
        bytes[0] as nat + 256 * le_value(bytes.skip(1))
    }
}

/// `b` is the multiplicative inverse of `a` modulo [`modulus`].
pub open spec fn is_inverse(a: int, b: int) -> bool {
    0 <= b < modulus() && (a * b) % q() == 1
}

/// `a` has a multiplicative inverse modulo [`modulus`].
pub open spec fn invertible(a: int) -> bool {
    exists|b: int| is_inverse(a, b)
}

/// The multiplicative inverse of `a` modulo [`modulus`], meaningful when
/// `a` is [`invertible`].
pub open spec fn inverse(a: int) -> int {
    choose|b: int| is_inverse(a, b)
}

/// An element of the scalar field.
#[derive(Clone, Copy, Debug)]
pub struct Scalar {
    pub(crate) bytes: [u8; 32],
}

impl View for Scalar {
    type V = nat;

    /// The number spelled by the encoding.
    open spec fn view(&self) -> nat {
        le_value(self.encoding())
    }
}

impl Scalar {
    /// The canonical little-endian encoding.
    pub closed spec fn encoding(&self) -> Seq<u8> {
        self.bytes@
    }

    /// The encoding is canonical: the value is below the modulus.
    pub open spec fn wf(&self) -> bool {
        self@ < modulus()
    }

    /// The canonical little-endian encoding of the element.
    pub fn to_bytes(&self) -> (bytes: [u8; 32])
        ensures
            bytes@ == self.encoding(),
    {
        self.bytes
    }

    /// Decodes a canonical little-endian encoding; a value that is not
    /// below the modulus is refused.
    pub fn from_bytes(bytes: &[u8; 32]) -> (r: Option<Scalar>)
        ensures
            r is Some <==> le_value(bytes@) < modulus(),
            r matches Some(s) ==> s.encoding() == bytes@ && s.wf(),
    {
        Scalar::decode(bytes)
    }

    /// The field element that stands for the integer `x`.
    pub fn from_u64(x: u64) -> (r: Scalar)
        ensures
            r.wf(),
            r@ == x,
    {
        Scalar::embed(x)
    }

    /// Reduces a 512-bit little-endian integer modulo the field order.
    pub fn from_bytes_wide(bytes: &[u8; 64]) -> (r: Scalar)
        ensures
            r.wf(),
            r@ == le_value(bytes@) % modulus(),
    {
        Scalar::reduce_wide(bytes)
    }

    /// Trusted: `jubjub::Fr::from_bytes` accepts exactly the 32-byte
    /// little-endian encodings of numbers below the modulus, and
    /// `jubjub::Fr::to_bytes` gives that encoding back.
    #[verifier::external_body]
    pub(crate) fn decode(bytes: &[u8; 32]) -> (r: Option<Scalar>)
        ensures
            r is Some <==> le_value(bytes@) < modulus(),
            r matches Some(s) ==> s.encoding() == bytes@ && s.wf(),
    {
        let parsed: Option<jubjub::Fr> = jubjub::Fr::from_bytes(bytes).into();
        match parsed {
            Some(x) => Some(Scalar { bytes: x.to_bytes() }),
            None => None,
        }
    }

    /// Trusted: `jubjub::Fr::zero` is the field element 0.
    #[verifier::external_body]
    pub(crate) fn zero() -> (r: Scalar)
        ensures
            r.wf(),
            r@ == 0,
    {
        Scalar { bytes: jubjub::Fr::zero().to_bytes() }
    }

    /// Trusted: `jubjub::Fr::one` is the field element 1.
    #[verifier::external_body]
    pub(crate) fn one() -> (r: Scalar)
        ensures
            r.wf(),
            r@ == 1,
    {
        Scalar { bytes: jubjub::Fr::one().to_bytes() }
    }

    /// Trusted: `jubjub::Fr::from(u64)` is the element with that value; no
    /// reduction takes place because the modulus exceeds every `u64`.
    #[verifier::external_body]
    pub(crate) fn embed(x: u64) -> (r: Scalar)
        ensures
            r.wf(),
            r@ == x,
    {
        Scalar { bytes: jubjub::Fr::from(x).to_bytes() }
    }

    /// Trusted: `jubjub::Fr::from_bytes_wide` reads the 64 bytes as a
    /// little-endian integer and reduces it modulo the modulus.
    #[verifier::external_body]
    pub(crate) fn reduce_wide(bytes: &[u8; 64]) -> (r: Scalar)
        ensures
            r.wf(),
            r@ == le_value(bytes@) % modulus(),
    {
        Scalar { bytes: jubjub::Fr::from_bytes_wide(bytes).to_bytes() }
    }

    /// Trusted: `+` on `jubjub::Fr` adds modulo the modulus.
    #[verifier::external_body]
    pub(crate) fn add(&self, rhs: &Scalar) -> (r: Scalar)
        requires
            self.wf(),
            rhs.wf(),
        ensures
            r.wf(),
            r@ == (self@ + rhs@) % modulus(),
    {
        let a = jubjub::Fr::from_bytes(&self.bytes).unwrap();
        let b = jubjub::Fr::from_bytes(&rhs.bytes).unwrap();
        Scalar { bytes: (a + b).to_bytes() }
    }

    /// Trusted: `-` on `jubjub::Fr` subtracts modulo the modulus.
    #[verifier::external_body]
    pub(crate) fn sub(&self, rhs: &Scalar) -> (r: Scalar)
        requires
            self.wf(),
            rhs.wf(),
        ensures
            r.wf(),
            r@ == (self@ - rhs@) % q(),
    {
        let a = jubjub::Fr::from_bytes(&self.bytes).unwrap();
        let b = jubjub::Fr::from_bytes(&rhs.bytes).unwrap();
        Scalar { bytes: (a - b).to_bytes() }
    }

    /// Trusted: `*` on `jubjub::Fr` multiplies modulo the modulus, which is
    /// prime: the product of two non-zero elements of the field is not zero.
    #[verifier::external_body]
    pub(crate) fn mul(&self, rhs: &Scalar) -> (r: Scalar)
        requires
            self.wf(),
            rhs.wf(),
        ensures
            r.wf(),
            r@ == (self@ * rhs@) % modulus(),
            r@ == 0 ==> self@ == 0 || rhs@ == 0,
    {
        let a = jubjub::Fr::from_bytes(&self.bytes).unwrap();
        let b = jubjub::Fr::from_bytes(&rhs.bytes).unwrap();
        Scalar { bytes: (a * b).to_bytes() }
    }

    /// Trusted: unary `-` on `jubjub::Fr` negates modulo the modulus.
    #[verifier::external_body]
    pub(crate) fn neg(&self) -> (r: Scalar)
        requires
            self.wf(),
        ensures
            r.wf(),
            r@ == (-(self@ as int)) % q(),
    {
        let a = jubjub::Fr::from_bytes(&self.bytes).unwrap();
        Scalar { bytes: (-a).to_bytes() }
    }

    /// Trusted: `jubjub::Fr::invert` fails exactly on zero and otherwise
    /// returns the element whose product with the argument is one.
    #[verifier::external_body]
    pub(crate) fn invert(&self) -> (r: Option<Scalar>)
        requires
            self.wf(),
        ensures
            r is None <==> self@ == 0,
            r matches Some(inv) ==> inv.wf() && (self@ * inv@) % modulus() == 1,
    {
        let a = jubjub::Fr::from_bytes(&self.bytes).unwrap();
        let inv: Option<jubjub::Fr> = a.invert().into();
        match inv {
            Some(x) => Some(Scalar { bytes: x.to_bytes() }),
            None => None,
        }
    }
}

/// Draws a field element from the operating system's entropy source: 64
/// random bytes reduced modulo the field order by
/// [`Scalar::from_bytes_wide`], so that the bias is negligible.
pub fn random_scalar() -> (r: Result<Scalar, ThresholdError>)
    ensures
        r matches Ok(s) ==> s.wf(),
        r matches Err(e) ==> e == ThresholdError::RandomnessFailure,
{
    match os_random::<64>() {
        Ok(bytes) => Ok(Scalar::from_bytes_wide(&bytes)),
        Err(_) => Err(ThresholdError::RandomnessFailure),
    }
}

} // verus!

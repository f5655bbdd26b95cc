//! Hybrid encryption under the master public key, and its threshold
//! decryption.
//!
//! Encryption picks an ephemeral scalar `r`, publishes `R = generator * r`
//! and seals the message under a key hashed from `S = key * r`. A
//! participant's partial decryption is `R` multiplied by its secret share;
//! the Lagrange-weighted sum of partial decryptions is `S` again, and the
//! master secret is never assembled.

use vstd::prelude::*;
use vstd::arithmetic::div_mod::lemma_small_mod;
use crate::dkg::{is_dkg_output, uniform_degree, SecretShare};
use crate::error::ThresholdError;
use crate::field::{invertible, modulus, q, random_scalar, Scalar};
use crate::group::{is_point_encoding, point_encoding, Point};
use crate::interpolation::{interpolate_at_zero, weighted_terms, weights_defined};
use crate::lagrange::{
    has_duplicate, index_values, lagrange_coeff, lagrange_den, lagrange_weight,
    lemma_distinct_never_twice,
};
use crate::laws::{correctly_generated, is_partial_of, lemma_shared_point};
use crate::modular::{lemma_cong_add, lemma_cong_reduce, lemma_cong_small, seq_sum};
use crate::primitives::{
    aead_open, aead_seal, aes_gcm_decrypt, aes_gcm_encrypt, os_random, sha256, sha256_digest,
    MAX_PLAINTEXT_LEN,
};

verus! {

/// The result of one encryption.
#[derive(Clone, Debug)]
pub struct Ciphertext {
    /// The ephemeral point `R = generator * r`.
    pub r: Point,
    /// The sealed message, authentication tag included.
    pub ct: Vec<u8>,
    /// The nonce under which the message was sealed.
    pub nonce: [u8; 12],
}

/// The length of the encoding of a point, in bytes.
pub const POINT_LEN: usize = 32;

/// The length of the nonce, in bytes.
pub const NONCE_LEN: usize = 12;

impl Ciphertext {
    /// The ephemeral point is an element of the subgroup.
    pub open spec fn wf(&self) -> bool {
        self.r.wf()
    }

    /// The serialized form: the encoding of the ephemeral point, then the
    /// nonce, then the sealed message.
    pub open spec fn serialized(&self) -> Seq<u8> {
        self.r.encoding() + self.nonce@ + self.ct@
    }

    /// Serializes the ciphertext: the encoding of the ephemeral point, then
    /// the nonce, then the sealed message.
    pub fn to_bytes(&self) -> (out: Vec<u8>)
        ensures
            out@ == self.serialized(),
    {
        let point = self.r.to_bytes();
        let mut out: Vec<u8> = Vec::new();
        let mut i: usize = 0;
        while i < POINT_LEN
            invariant
                i <= POINT_LEN,
                point@.len() == POINT_LEN,
                out@ == point@.take(i as int),
            decreases POINT_LEN - i,
        {
            out.push(point[i]);
            assert(point@.take(i + 1) =~= point@.take(i as int).push(point@[i as int]));
            i += 1;
        }
        assert(point@.take(POINT_LEN as int) =~= point@);
        let mut i: usize = 0;
        while i < NONCE_LEN
            invariant
                i <= NONCE_LEN,
                self.nonce@.len() == NONCE_LEN,
                out@ == point@ + self.nonce@.take(i as int),
            decreases NONCE_LEN - i,
        {
            out.push(self.nonce[i]);
            assert(self.nonce@.take(i + 1) =~= self.nonce@.take(i as int).push(
                self.nonce@[i as int],
            ));
            assert(out@ =~= point@ + self.nonce@.take(i + 1));
            i += 1;
        }
        assert(self.nonce@.take(NONCE_LEN as int) =~= self.nonce@);
        let mut i: usize = 0;
        while i < self.ct.len()
            invariant
                i <= self.ct@.len(),
                out@ == point@ + self.nonce@ + self.ct@.take(i as int),
            decreases self.ct@.len() - i,
        {
            out.push(self.ct[i]);
            assert(self.ct@.take(i + 1) =~= self.ct@.take(i as int).push(self.ct@[i as int]));
            assert(out@ =~= point@ + self.nonce@ + self.ct@.take(i + 1));
            i += 1;
        }
        assert(self.ct@.take(self.ct@.len() as int) =~= self.ct@);
        out
    }

    /// Parses a serialized ciphertext. Succeeds exactly when the input
    /// holds a point encoding and a nonce, and the first 32 bytes encode an
    /// element of the subgroup; what follows the nonce is the sealed message.
    pub fn from_bytes(bytes: &[u8]) -> (res: Option<Ciphertext>)
        ensures
            res is Some <==> bytes@.len() >= POINT_LEN + NONCE_LEN && is_point_encoding(
                bytes@.subrange(0, POINT_LEN as int),
            ),
            res matches Some(c) ==> c.wf() && c.serialized() == bytes@,
    {
        if bytes.len() < POINT_LEN + NONCE_LEN {
            return None;
        }
        let mut point = [0u8; 32];
        let mut i: usize = 0;
        while i < POINT_LEN
            invariant
                i <= POINT_LEN,
                bytes@.len() >= POINT_LEN + NONCE_LEN,
                point@.len() == POINT_LEN,
                forall|k: int| 0 <= k < i ==> point@[k] == bytes@[k],
            decreases POINT_LEN - i,
        {
            point[i] = bytes[i];
            i += 1;
        }
        assert(point@ =~= bytes@.subrange(0, POINT_LEN as int));
        let mut nonce = [0u8; 12];
        let mut i: usize = 0;
        while i < NONCE_LEN
            invariant
                i <= NONCE_LEN,
                bytes@.len() >= POINT_LEN + NONCE_LEN,
                nonce@.len() == NONCE_LEN,
                forall|k: int| 0 <= k < i ==> nonce@[k] == bytes@[POINT_LEN + k],
            decreases NONCE_LEN - i,
        {
            nonce[i] = bytes[POINT_LEN + i];
            i += 1;
        }
        let mut ct: Vec<u8> = Vec::new();
        let mut i: usize = POINT_LEN + NONCE_LEN;
        while i < bytes.len()
            invariant
                POINT_LEN + NONCE_LEN <= i <= bytes@.len(),
                ct@ == bytes@.subrange(POINT_LEN + NONCE_LEN, i as int),
            decreases bytes@.len() - i,
        {
            ct.push(bytes[i]);
            assert(bytes@.subrange(POINT_LEN + NONCE_LEN, i + 1) =~= bytes@.subrange(
                POINT_LEN + NONCE_LEN,
                i as int,
            ).push(bytes@[i as int]));
            i += 1;
        }
        match Point::from_bytes(&point) {
            Some(r) => {
                let c = Ciphertext { r, ct, nonce };
                assert(c.serialized() =~= bytes@);
                Some(c)
            },
            None => None,
        }
    }
}

/// One participant's contribution to a decryption.
#[derive(Clone, Copy, Debug)]
pub struct PartialDecryption {
    /// The participant's index.
    pub index: usize,
    /// The ephemeral point multiplied by the participant's secret share.
    pub point: Point,
}

/// The symmetric key that belongs to the shared point with the given exponent.
pub open spec fn shared_key(exponent: nat) -> Seq<u8> {
    sha256_digest(point_encoding(exponent))
}

/// What decryption with the shared point of the given exponent yields:
/// the plaintext, or `None` when authentication fails.
pub open spec fn decryption(exponent: nat, c: Ciphertext) -> Option<Seq<u8>> {
    aead_open(shared_key(exponent), c.nonce@, c.ct@)
}

/// The exponent of the point that encryption under the key with exponent
/// `key` shares with the holders of the secret: `key * r` for the
/// ciphertext's ephemeral exponent `r`.
pub open spec fn shared_exponent(key: nat, c: Ciphertext) -> nat {
    (key * c.r@) % modulus()
}

/// The participant indices of the partial decryptions, in order.
pub open spec fn partial_indices(shares: Seq<PartialDecryption>) -> Seq<int> {
    Seq::new(shares.len(), |k: int| shares[k].index as int)
}

/// The exponents of the points of the partial decryptions, in order.
pub open spec fn partial_exponents(shares: Seq<PartialDecryption>) -> Seq<int> {
    Seq::new(shares.len(), |k: int| shares[k].point@ as int)
}

/// Every partial decryption holds an element of the subgroup.
pub open spec fn partials_wf(shares: Seq<PartialDecryption>) -> bool {
    forall|k: int| 0 <= k < shares.len() ==> (#[trigger] shares[k]).point.wf()
}

/// Derives the 256-bit symmetric key from a shared point: the SHA-256
/// digest of the point's canonical encoding.
pub fn derive_symmetric_key(shared_point: &Point) -> (key: [u8; 32])
    ensures
        key@ == sha256_digest(shared_point.encoding()),
        shared_point.wf() ==> key@ == shared_key(shared_point@),
{
    proof {
        if shared_point.wf() {
            shared_point.lemma_encoding_of_exponent();
        }
    }
    let bytes = shared_point.to_bytes();
    sha256(&bytes)
}

/// Encrypts `plaintext` under the public key `pk` with the ephemeral
/// scalar `r` and the nonce given. Fails exactly when the plaintext is
/// longer than the cipher accepts.
pub fn encrypt_with(pk: &Point, plaintext: &[u8], r: &Scalar, nonce: [u8; 12]) -> (res: Result<
    Ciphertext,
    ThresholdError,
>)
    requires
        pk.wf(),
        r.wf(),
    ensures
        res is Err <==> plaintext@.len() > MAX_PLAINTEXT_LEN,
        res matches Err(e) ==> e == ThresholdError::EncryptionFailure,
        res matches Ok(c) ==> c.wf() && c.r@ == r@ && c.nonce@ == nonce@ && c.ct@ == aead_seal(
            shared_key((pk@ * r@) % modulus()),
            nonce@,
            plaintext@,
        ) && decryption(shared_exponent(pk@, c), c) == Some(plaintext@),
{
    let big_r = Point::generator().mul(r);
    let s = pk.mul(r);
    proof {
        lemma_small_mod(r@, modulus());
    }
    let key = derive_symmetric_key(&s);
    match aes_gcm_encrypt(&key, &nonce, plaintext) {
        Ok(ct) => Ok(Ciphertext { r: big_r, ct, nonce }),
        Err(_) => Err(ThresholdError::EncryptionFailure),
    }
}

/// Encrypts `plaintext` under the public key `pk` with a fresh ephemeral
/// scalar and a fresh nonce. Whatever the entropy source returned, a
/// ciphertext that comes back decrypts to the plaintext under the point
/// shared with the key holders.
pub fn encrypt(pk: &Point, plaintext: &[u8]) -> (res: Result<Ciphertext, ThresholdError>)
    requires
        pk.wf(),
    ensures
        res matches Ok(c) ==> c.wf() && plaintext@.len() <= MAX_PLAINTEXT_LEN && c.ct@
            == aead_seal(shared_key(shared_exponent(pk@, c)), c.nonce@, plaintext@) && decryption(
            shared_exponent(pk@, c),
            c,
        ) == Some(plaintext@),
        res matches Err(e) ==> e == ThresholdError::RandomnessFailure || (e
            == ThresholdError::EncryptionFailure && plaintext@.len() > MAX_PLAINTEXT_LEN),
{
    let r = match random_scalar() {
        Ok(r) => r,
        Err(e) => {
            return Err(e);
        },
    };
    let nonce = match os_random::<12>() {
        Ok(nonce) => nonce,
        Err(_) => {
            return Err(ThresholdError::RandomnessFailure);
        },
    };
    encrypt_with(pk, plaintext, &r, nonce)
}

/// Computes a participant's partial decryption of `ct`: the ephemeral
/// point multiplied by the participant's secret share. Fails exactly when
/// the share's index is not one of `1..=n`.
pub fn partial_decrypt_share(share: &SecretShare, ct: &Ciphertext, n: usize) -> (res: Result<
    PartialDecryption,
    ThresholdError,
>)
    requires
        share.wf(),
        ct.wf(),
    ensures
        res is Err <==> !(1 <= share.index <= n),
        res matches Err(e) ==> e == ThresholdError::InvalidShare,
        res matches Ok(p) ==> p.index == share.index && p.point.wf() && p.point@ == (ct.r@
            * share.value@) % modulus(),
{
    if share.index < 1 || share.index > n {
        return Err(ThresholdError::InvalidShare);
    }
    Ok(PartialDecryption { index: share.index, point: ct.r.mul(&share.value) })
}

/// Combines partial decryptions into the shared point: the sum of the
/// points, each multiplied by the Lagrange weight of its index among the
/// indices supplied.
///
/// Fails with `InsufficientShares` when fewer than `t` are supplied, else
/// with `DuplicateIndex` when two carry one index, and in no other case:
/// the weights of distinct indices are always defined. Whichever
/// participants of one key generation contributed, the result is the
/// point that encryption shared with the key holders.
pub fn combine_shares(shares: &[PartialDecryption], t: usize) -> (res: Result<
    Point,
    ThresholdError,
>)
    requires
        partials_wf(shares@),
    ensures
        res is Ok <==> shares@.len() >= t && partial_indices(shares@).no_duplicates(),
        res matches Err(e) ==> e == (if shares@.len() < t {
            ThresholdError::InsufficientShares
        } else {
            ThresholdError::DuplicateIndex
        }),
        res matches Ok(s) ==> s.wf() && weights_defined(partial_indices(shares@)) && s@
            == interpolate_at_zero(partial_indices(shares@), partial_exponents(shares@)),
        res matches Ok(s) ==> forall|key: Point, c: Ciphertext| #[trigger]
            correctly_generated(shares@, t as nat, key, c) ==> s@ == shared_exponent(key@, c),
{
    if shares.len() < t {
        return Err(ThresholdError::InsufficientShares);
    }
    let ghost xs = partial_indices(shares@);
    let ghost es = partial_exponents(shares@);
    let ghost terms = weighted_terms(xs, es);
    let mut subset: Vec<usize> = Vec::new();
    let mut k: usize = 0;
    while k < shares.len()
        invariant
            k <= shares.len(),
            subset@.len() == k,
            forall|a: int| 0 <= a < k ==> subset@[a] == shares@[a].index,
        decreases shares.len() - k,
    {
        subset.push(shares[k].index);
        k += 1;
    }
    assert(index_values(subset@) =~= xs);
    if has_duplicate(subset.as_slice()) {
        return Err(ThresholdError::DuplicateIndex);
    }
    let mut acc = Point::identity();
    let mut k: usize = 0;
    proof {
        assert(terms.take(0) =~= Seq::<int>::empty());
        lemma_cong_small(0, 0);
    }
    while k < shares.len()
        invariant
            k <= shares.len(),
            xs == partial_indices(shares@),
            es == partial_exponents(shares@),
            terms == weighted_terms(xs, es),
            index_values(subset@) == xs,
            xs.no_duplicates(),
            shares@.len() >= t,
            partials_wf(shares@),
            acc.wf(),
            acc@ == seq_sum(terms.take(k as int)) % q(),
            forall|a: int| 0 <= a < k ==> invertible(lagrange_den(#[trigger] xs[a], xs)),
        decreases shares.len() - k,
    {
        let share = &shares[k];
        proof {
            assert(xs[k as int] == share.index as int);
            lemma_distinct_never_twice(share.index as int, xs);
        }
        match lagrange_coeff(share.index, subset.as_slice()) {
            Ok(lam) => {
                let term = share.point.mul(&lam);
                let next = acc.add(&term);
                proof {
                    let before = seq_sum(terms.take(k as int));
                    let e = share.point@ as int;
                    let w = lagrange_weight(xs[k as int], xs);
                    assert(xs[k as int] == share.index as int);
                    assert(es[k as int] == e);
                    assert(terms.take(k + 1).drop_last() =~= terms.take(k as int));
                    assert(terms.take(k + 1).last() == w * e);
                    assert(e * w == w * e) by (nonlinear_arith);
                    lemma_cong_reduce(before);
                    lemma_cong_reduce(w * e);
                    lemma_cong_add(acc@ as int, before, term@ as int, w * e);
                    lemma_cong_reduce((acc@ + term@) as int);
                    lemma_cong_small(next@ as int, before + w * e);
                }
                acc = next;
            },
            Err(e) => {
                // not reached: the weight of an index among distinct indices is defined
                return Err(e);
            },
        }
        k += 1;
    }
    proof {
        assert(terms.take(shares@.len() as int) =~= terms);
        assert forall|key: Point, c: Ciphertext| #[trigger]
            correctly_generated(shares@, t as nat, key, c) implies acc@ == shared_exponent(
            key@,
            c,
        ) by {
            let (polys, holders) = choose|polys: Seq<Seq<int>>, holders: Seq<SecretShare>|
                uniform_degree(polys, t as nat) && #[trigger] is_dkg_output(
                    polys,
                    holders.len(),
                    key,
                    holders,
                ) && forall|k: int|
                    0 <= k < shares@.len() ==> is_partial_of(#[trigger] shares@[k], holders, c);
            lemma_shared_point(polys, holders.len(), t as nat, key, holders, c, shares@);
        }
    }
    Ok(acc)
}

/// Decrypts `ct` with the shared point `s`: derives the symmetric key as
/// encryption does and opens the sealed message. Fails with
/// `DecryptionFailure` exactly when authentication fails, whether the
/// point is wrong or the ciphertext was altered.
#[allow(non_snake_case)]
pub fn decrypt_with_S(s: &Point, ct: &Ciphertext) -> (res: Result<Vec<u8>, ThresholdError>)
    ensures
        res matches Ok(plaintext) ==> aead_open(
            sha256_digest(s.encoding()),
            ct.nonce@,
            ct.ct@,
        ) == Some(plaintext@),
        res matches Err(e) ==> e == ThresholdError::DecryptionFailure && aead_open(
            sha256_digest(s.encoding()),
            ct.nonce@,
            ct.ct@,
        ) is None,
        s.wf() ==> sha256_digest(s.encoding()) == shared_key(s@),
{
    proof {
        if s.wf() {
            s.lemma_encoding_of_exponent();
        }
    }
    let key = derive_symmetric_key(s);
    match aes_gcm_decrypt(&key, &ct.nonce, ct.ct.as_slice()) {
        Ok(plaintext) => Ok(plaintext),
        Err(_) => Err(ThresholdError::DecryptionFailure),
    }
}

/// The plaintext that a decryption returned, if it returned one.
pub open spec fn recovered(res: Result<Vec<u8>, ThresholdError>) -> Option<Seq<u8>> {
    match res {
        Ok(plaintext) => Some(plaintext@),
        Err(_) => None,
    }
}

/// Threshold decryption: combines the partial decryptions and decrypts
/// `ct` with the point they give. Fails as [`combine_shares`] does, and
/// with `DecryptionFailure` when authentication fails.
///
/// For partial decryptions that participants of one key generation
/// computed for `ct`, with distinct indices and no fewer than the
/// threshold, the result is what decryption with the point that
/// encryption shared yields: for a `ct` that [`encrypt`] produced under
/// that generation's master public key, the message.
pub fn threshold_decrypt(partials: &[PartialDecryption], t: usize, ct: &Ciphertext) -> (res: Result<
    Vec<u8>,
    ThresholdError,
>)
    requires
        partials_wf(partials@),
    ensures
        res matches Ok(plaintext) ==> partials@.len() >= t && partial_indices(
            partials@,
        ).no_duplicates() && decryption(
            interpolate_at_zero(partial_indices(partials@), partial_exponents(partials@)) as nat,
            *ct,
        ) == Some(plaintext@),
        res matches Err(e) ==> e == (if partials@.len() < t {
            ThresholdError::InsufficientShares
        } else if !partial_indices(partials@).no_duplicates() {
            ThresholdError::DuplicateIndex
        } else {
            ThresholdError::DecryptionFailure
        }),
        res is Err && partials@.len() >= t && partial_indices(partials@).no_duplicates()
            ==> decryption(
            interpolate_at_zero(partial_indices(partials@), partial_exponents(partials@)) as nat,
            *ct,
        ) is None,
        forall|key: Point|
            partials@.len() >= t && partial_indices(partials@).no_duplicates()
                && #[trigger] correctly_generated(partials@, t as nat, key, *ct) ==> recovered(res)
                == decryption(shared_exponent(key@, *ct), *ct),
{
    match combine_shares(partials, t) {
        Ok(s) => decrypt_with_S(&s, ct),
        Err(e) => Err(e),
    }
}

} // verus!

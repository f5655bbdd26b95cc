//! Hashing, authenticated encryption and entropy, taken from outside crates.
//!
//! SHA-256 and AES-256-GCM are functions of their arguments alone; their
//! results are named here and nothing is said of what the names compute
//! beyond what the wrappers state. The entropy source promises nothing
//! about the bytes it returns.

use vstd::prelude::*;
use aes_gcm::aead::{Aead, KeyInit};
use rand::TryRngCore;
use sha2::Digest;

verus! {

/// The SHA-256 digest of `data`.
pub uninterp spec fn sha256_digest(data: Seq<u8>) -> Seq<u8>;

/// The AES-256-GCM ciphertext, tag included, of `plaintext` under `key`
/// and `nonce`, with no associated data.
pub uninterp spec fn aead_seal(key: Seq<u8>, nonce: Seq<u8>, plaintext: Seq<u8>) -> Seq<u8>;

/// The plaintext that AES-256-GCM recovers from `sealed` under `key` and
/// `nonce`, or `None` when authentication fails.
pub uninterp spec fn aead_open(key: Seq<u8>, nonce: Seq<u8>, sealed: Seq<u8>) -> Option<Seq<u8>>;

/// The longest plaintext that AES-256-GCM accepts, in bytes.
pub const MAX_PLAINTEXT_LEN: u64 = 0x10_0000_0000;

/// The length of the authentication tag, in bytes.
pub const TAG_LEN: usize = 16;

#[verifier::external_type_specification]
#[verifier::external_body]
pub struct ExAeadError(aes_gcm::Error);

#[verifier::external_type_specification]
#[verifier::external_body]
pub struct ExOsError(rand::rand_core::OsError);

/// Trusted: `Sha256::new`, `update` and `finalize` of `sha2` compute the
/// SHA-256 digest of the bytes given.
#[verifier::external_body]
pub(crate) fn sha256(data: &[u8; 32]) -> (digest: [u8; 32])
    ensures
        digest@ == sha256_digest(data@),
{
    let mut hasher = sha2::Sha256::new();
    hasher.update(data);
    hasher.finalize().into()
}

/// Trusted: `Aes256Gcm::encrypt` of `aes_gcm` fails exactly when the
/// plaintext is longer than 2^36 bytes; otherwise it returns the
/// ciphertext followed by the 16-byte tag, which `Aes256Gcm::decrypt`
/// under the same key and nonce opens to the plaintext.
#[verifier::external_body]
pub(crate) fn aes_gcm_encrypt(key: &[u8; 32], nonce: &[u8; 12], plaintext: &[u8]) -> (r: Result<
    Vec<u8>,
    aes_gcm::Error,
>)
    ensures
        r is Ok <==> plaintext@.len() <= MAX_PLAINTEXT_LEN,
        r matches Ok(sealed) ==> sealed@ == aead_seal(key@, nonce@, plaintext@)
            && sealed@.len() == plaintext@.len() + TAG_LEN
            && aead_open(key@, nonce@, sealed@) == Some(plaintext@),
{
    let cipher = aes_gcm::Aes256Gcm::new(aes_gcm::Key::<aes_gcm::Aes256Gcm>::from_slice(key));
    cipher.encrypt(aes_gcm::Nonce::from_slice(nonce), plaintext)
}

/// Trusted: `Aes256Gcm::decrypt` of `aes_gcm` is a function of key, nonce
/// and input; it fails when the input is shorter than the tag or the tag
/// does not match, and otherwise returns the plaintext.
#[verifier::external_body]
pub(crate) fn aes_gcm_decrypt(key: &[u8; 32], nonce: &[u8; 12], sealed: &[u8]) -> (r: Result<
    Vec<u8>,
    aes_gcm::Error,
>)
    ensures
        r matches Ok(plaintext) ==> aead_open(key@, nonce@, sealed@) == Some(plaintext@),
        r is Err ==> aead_open(key@, nonce@, sealed@) is None,
        sealed@.len() < TAG_LEN ==> r is Err,
{
    let cipher = aes_gcm::Aes256Gcm::new(aes_gcm::Key::<aes_gcm::Aes256Gcm>::from_slice(key));
    cipher.decrypt(aes_gcm::Nonce::from_slice(nonce), sealed)
}

/// Trusted: `OsRng::try_fill_bytes` of `rand` fills the buffer from the
/// operating system's entropy source or reports its failure. Nothing is
/// known of the bytes.
#[verifier::external_body]
pub(crate) fn os_random<const N: usize>() -> (r: Result<[u8; N], rand::rand_core::OsError>)
{
    let mut buf = [0u8; N];
    match rand::rngs::OsRng.try_fill_bytes(&mut buf) {
        Ok(()) => Ok(buf),
        Err(e) => Err(e),
    }
}

} // verus!

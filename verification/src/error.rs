//! The failure kinds reported by the library.

use vstd::prelude::*;

verus! {

/// Why an operation could not produce its result.
#[derive(Clone, Copy, Debug, PartialEq, Eq, Structural)]
pub enum ThresholdError {
    /// The operating system's entropy source reported a failure.
    RandomnessFailure,
    /// A participant index lies outside `1..=n`.
    InvalidShare,
    /// Fewer partial decryptions than the threshold were supplied.
    InsufficientShares,
    /// Two partial decryptions carry the same participant index.
    DuplicateIndex,
    /// An interpolation denominator is the zero element of the field.
    DegenerateCoefficient,
    /// The authenticated cipher refused to encrypt.
    EncryptionFailure,
    /// The authenticated cipher rejected the ciphertext under the derived key.
    DecryptionFailure,
}

} // verus!

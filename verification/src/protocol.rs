//! The whole protocol in one place: key generation, encryption, partial
//! decryption by the first `t` participants, combination and decryption.
//!
//! In a deployment every participant runs its part on its own machine;
//! this module runs all parts in one process, to show how they fit
//! together and that together they return the message.

use vstd::prelude::*;
use crate::cipher::{
    decryption, encrypt, partial_decrypt_share, partial_indices, shared_exponent,
    threshold_decrypt, Ciphertext, PartialDecryption,
};
use crate::dkg::{generate, is_dkg_output, is_generated, uniform_degree, SecretShare};
use crate::error::ThresholdError;
use crate::group::Point;
use crate::laws::{correctly_generated, is_partial_of};
use crate::primitives::MAX_PLAINTEXT_LEN;

verus! {

/// What one run of the protocol produced.
pub struct Transcript {
    /// The master public key of the key generation.
    pub key: Point,
    /// The encryption of the message under that key.
    pub ciphertext: Ciphertext,
    /// What the first `t` participants decrypted together.
    pub decrypted: Vec<u8>,
}

/// The key is the master public key of some key generation for `n`
/// participants with threshold `t`.
pub open spec fn is_generated_key(n: nat, t: nat, key: Point) -> bool {
    exists|shares: Seq<SecretShare>| #[trigger] is_generated(n, t, key, shares)
}

/// Runs the protocol for `n` participants with threshold `t` on `message`:
/// generates the key and the shares, encrypts the message, lets
/// participants `1..=t` compute their partial decryptions, combines them
/// and decrypts. Whatever the entropy source returned, a run that
/// completes has decrypted the message itself.
pub fn simulate(n: usize, t: usize, message: &[u8]) -> (res: Result<Transcript, ThresholdError>)
    requires
        1 <= t <= n,
    ensures
        res matches Ok(run) ==> run.key.wf() && run.ciphertext.wf() && is_generated_key(
            n as nat,
            t as nat,
            run.key,
        ) && decryption(shared_exponent(run.key@, run.ciphertext), run.ciphertext) == Some(
            message@,
        ) && run.decrypted@ == message@,
        res matches Err(e) ==> e == ThresholdError::RandomnessFailure || (e
            == ThresholdError::EncryptionFailure && message@.len() > MAX_PLAINTEXT_LEN),
{
    let (key, shares) = match generate(n, t) {
        Ok(out) => out,
        Err(e) => {
            return Err(e);
        },
    };
    let ciphertext = match encrypt(&key, message) {
        Ok(c) => c,
        Err(e) => {
            return Err(e);
        },
    };
    assert(is_generated_key(n as nat, t as nat, key)) by {
        assert(is_generated(n as nat, t as nat, key, shares@));
    }
    let ghost polys = choose|polys: Seq<Seq<int>>|
        polys.len() == n && uniform_degree(polys, t as nat) && #[trigger] is_dkg_output(
            polys,
            n as nat,
            key,
            shares@,
        );
    let mut partials: Vec<PartialDecryption> = Vec::new();
    let mut i: usize = 0;
    while i < t
        invariant
            i <= t <= n,
            ciphertext.wf(),
            is_dkg_output(polys, n as nat, key, shares@),
            partials@.len() == i,
            forall|k: int|
                0 <= k < i ==> (#[trigger] partials@[k]).index == k + 1 && is_partial_of(
                    partials@[k],
                    shares@,
                    ciphertext,
                ),
        decreases t - i,
    {
        let share = &shares[i];
        match partial_decrypt_share(share, &ciphertext, n) {
            Ok(p) => {
                partials.push(p);
            },
            Err(e) => {
                // not reached: the shares of a key generation carry the indices 1..=n
                assert(false);
                return Err(e);
            },
        }
        i += 1;
    }
    proof {
        let xs = partial_indices(partials@);
        assert forall|a: int, b: int| 0 <= a < xs.len() && 0 <= b < xs.len() && a != b implies xs[a]
            != xs[b] by {
            assert(partials@[a].index == a + 1 && partials@[b].index == b + 1);
        }
        assert(correctly_generated(partials@, t as nat, key, ciphertext)) by {
            assert(is_dkg_output(polys, shares@.len(), key, shares@));
        }
    }
    match threshold_decrypt(partials.as_slice(), t, &ciphertext) {
        Ok(decrypted) => Ok(Transcript { key, ciphertext, decrypted }),
        Err(e) => {
            // not reached: the participants decrypt what encryption sealed
            assert(false);
            Err(e)
        },
    }
}

} // verus!

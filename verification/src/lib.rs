//! Threshold public-key encryption over the Jubjub prime-order subgroup.
//!
//! A master decryption key is split among `n` participants by distributed
//! key generation so that any `t` of them can jointly decrypt, while the
//! master secret itself is never assembled. Field and group arithmetic,
//! hashing, authenticated encryption and entropy come from outside crates
//! behind small trusted wrappers; everything built on top of them is verified.
//!
//! - [`field`] and [`group`]: scalars and points, with the trusted arithmetic;
//! - [`primitives`]: SHA-256, AES-256-GCM and the entropy source;
//! - [`polynomial`], [`lagrange`], [`interpolation`]: secret sharing and
//!   the law that reconstruction at the origin returns the secret;
//! - [`dkg`]: key generation from the dealers' polynomials;
//! - [`cipher`]: encryption, partial decryption, combination, decryption;
//! - [`laws`]: what the scheme guarantees, stated and proved;
//! - [`protocol`]: all parts run together in one process;
//! - [`modular`]: congruences and sums, the arithmetic behind the proofs.

pub mod cipher;
pub mod dkg;
pub mod error;
pub mod field;
pub mod group;
pub mod interpolation;
pub mod lagrange;
pub mod laws;
pub mod modular;
pub mod polynomial;
pub mod primitives;
pub mod protocol;

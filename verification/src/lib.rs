//! Core arithmetic of a threshold signature scheme.
//!
//! Multiple parties jointly hold shares of a secret key and cooperatively
//! produce signatures without reconstructing the key in one place.  The
//! building blocks, from leaf to root: fixed-width modular arithmetic
//! (`arith`), the Paillier additively-homomorphic cryptosystem (`paillier`),
//! a multiplicative-to-additive share conversion built on it (`mta`),
//! dealer-less key-share generation and reconstruction (`keyshare`), the
//! combination of shares into final signature scalars (`signature`), and a
//! sigma protocol binding a Paillier ciphertext to a curve commitment (`zk`).

use vstd::prelude::*;

pub mod arith;
pub mod curve;
pub mod keyshare;
pub mod mta;
pub mod rng;
pub mod signature;
pub mod zk;
pub mod paillier;

verus! {

/// Every failure the core can report.  Precondition violations and malformed
/// inputs are returned eagerly, before expensive work, never panicked on.
#[derive(Clone, Copy, Debug, PartialEq, Eq, Structural)]
pub enum CoreError {
    /// An operand has no modular inverse where one is needed.
    NoInverse,
    /// A Paillier randomizer lies outside `(0, n)`.
    RandomizerOutOfRange,
    /// A Paillier plaintext is not below the public modulus.
    MessageOutOfRange,
    /// A product of secrets reaches the Paillier modulus and would wrap.
    ProductExceedsModulus,
    /// A Paillier key pair fails its own invariant.
    InvalidKey,
    /// A ciphertext no honest party could have produced.
    MalformedCiphertext,
    /// A fixed-width sum or product would exceed the integer width.
    Overflow,
}

} // verus!

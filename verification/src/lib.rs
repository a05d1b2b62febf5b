//! An additively homomorphic ElGamal-style encryption scheme over a prime-order
//! group, an authenticated-ciphertext wrapper around it, and three
//! non-interactive sigma-protocol proofs built with the Fiat-Shamir transform.

use vstd::prelude::*;

pub mod elgamal;
pub mod encoding;
pub mod group;
pub mod hashing;
pub mod zkp;

pub use group::CurveElem;
pub use group::Scalar;

verus! {

/// Failure of a primitive operation: the secure randomness source was
/// unavailable, or a byte or text encoding did not denote a group value.
#[derive(Clone, Copy, Debug, PartialEq, Eq, Structural)]
pub enum CryptoError {
    RandomnessUnavailable,
    InvalidEncoding,
}

/// Failure of ciphertext text decoding: a segment was not a well-formed group
/// element, or the number of segments was wrong.
#[derive(Clone, Copy, Debug, PartialEq, Eq, Structural)]
pub enum EncodingError {
    CurveElem,
    Length,
}

} // verus!

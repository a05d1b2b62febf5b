//! An incremental hasher over the ring crate's digest primitives, and the
//! hash-to-scalar reduction used for Fiat-Shamir challenges.

use vstd::arithmetic::div_mod::lemma_mod_twice;
use vstd::bytes::*;
use vstd::prelude::*;

use crate::group::GROUP_ORDER;
use crate::group::Scalar;
use crate::group::order;

verus! {

/// The SHA-256 digest of a byte string, as ring computes it.
pub uninterp spec fn sha256_of(data: Seq<u8>) -> Seq<u8>;

/// The SHA-512 digest of a byte string, as ring computes it.
pub uninterp spec fn sha512_of(data: Seq<u8>) -> Seq<u8>;

/// Relies on ring::digest::digest with SHA256: the digest is a function of
/// the input bytes alone and is 32 bytes long.
#[verifier::external_body]
fn digest_sha256(data: &Vec<u8>) -> (r: Vec<u8>)
    ensures
        r@ == sha256_of(data@),
        r@.len() == 32,
{
    ring::digest::digest(&ring::digest::SHA256, data.as_slice()).as_ref().to_vec()
}

/// Relies on ring::digest::digest with SHA512: the digest is a function of
/// the input bytes alone and is 64 bytes long.
#[verifier::external_body]
fn digest_sha512(data: &Vec<u8>) -> (r: Vec<u8>)
    ensures
        r@ == sha512_of(data@),
        r@.len() == 64,
{
    ring::digest::digest(&ring::digest::SHA512, data.as_slice()).as_ref().to_vec()
}

/// Which digest a hasher computes.
#[derive(Clone, Copy, Debug, PartialEq, Eq, Structural)]
pub enum HashKind {
    Sha256,
    Sha512,
}

/// The digest of `data` under `kind`.
pub open spec fn digest_of(kind: HashKind, data: Seq<u8>) -> Seq<u8> {
    match kind {
        HashKind::Sha256 => sha256_of(data),
        HashKind::Sha512 => sha512_of(data),
    }
}

/// The scalar a digest reduces to: its first eight bytes, read little-endian,
/// taken modulo the scalar field's order.
pub open spec fn scalar_of_digest(d: Seq<u8>) -> nat {
    spec_u64_from_le_bytes(d.subrange(0, 8)) as nat % order()
}

/// An incremental hasher: bytes are fed in pieces and digested at the end.
pub struct Hasher {
    pub kind: HashKind,
    pub data: Vec<u8>,
}

impl Hasher {
    /// A fresh SHA-256 hasher.
    pub fn sha_256() -> (h: Hasher)
        ensures
            h.kind == HashKind::Sha256,
            h.data@ == Seq::<u8>::empty(),
    {
        Hasher { kind: HashKind::Sha256, data: Vec::new() }
    }

    /// A fresh SHA-512 hasher.
    pub fn sha_512() -> (h: Hasher)
        ensures
            h.kind == HashKind::Sha512,
            h.data@ == Seq::<u8>::empty(),
    {
        Hasher { kind: HashKind::Sha512, data: Vec::new() }
    }

    /// Feeds more bytes to the hasher.
    pub fn and_update(self, bytes: &Vec<u8>) -> (h: Hasher)
        ensures
            h.kind == self.kind,
            h.data@ == self.data@ + bytes@,
    {
        let mut data = self.data;
        let ghost prefix = data@;
        let mut i: usize = 0;
        while i < bytes.len()
            invariant
                i <= bytes.len(),
                data@ == prefix + bytes@.take(i as int),
            decreases bytes.len() - i,
        {
            data.push(bytes[i]);
            proof {
                assert(bytes@.take(i + 1 as int) == bytes@.take(i as int).push(bytes@[i as int]));
            }
            i = i + 1;
        }
        proof {
            assert(bytes@.take(bytes.len() as int) == bytes@);
        }
        Hasher { kind: self.kind, data }
    }

    /// The digest of everything fed so far.
    pub fn finish(self) -> (d: Vec<u8>)
        ensures
            d@ == digest_of(self.kind, self.data@),
            d@.len() >= 32,
    {
        match self.kind {
            HashKind::Sha256 => digest_sha256(&self.data),
            HashKind::Sha512 => digest_sha512(&self.data),
        }
    }

    /// The digest of everything fed so far, reduced into the scalar field.
    pub fn finish_scalar(self) -> (s: Scalar)
        ensures
            s.value() == scalar_of_digest(digest_of(self.kind, self.data@)),
            s.reduced(),
    {
        let d = self.finish();
        let first8 = vstd::slice::slice_subrange(d.as_slice(), 0, 8);
        let v = u64_from_le_bytes(first8);
        proof {
            lemma_mod_twice(v as int, GROUP_ORDER as int);
        }
        Scalar(v % GROUP_ORDER)
    }
}

} // verus!

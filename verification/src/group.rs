//! The algebraic backend: a cyclic group of prime order written additively
//! over the residues modulo `GROUP_ORDER`, together with its scalar field
//! (which has the same modulus, since the group has prime order).
//!
//! In the protocol's multiplicative language, "raising a base to a power"
//! is scalar multiplication of a residue, and "multiplying group elements"
//! is addition of residues.

use vstd::arithmetic::div_mod::*;
use vstd::arithmetic::mul::*;
use vstd::bytes::*;
use vstd::prelude::*;

use crate::CryptoError;
use crate::encoding::b64_decode;
use crate::encoding::b64_decode_of;
use crate::encoding::b64_encode;
use crate::encoding::b64_of;

verus! {

/// The order of the group and of its scalar field: the Mersenne prime 2^61 - 1.
pub const GROUP_ORDER: u64 = 2305843009213693951;

/// The residue of the fixed generator `g`. Any nonzero residue generates the
/// group; this one is fixed once and for all.
pub const GENERATOR_VALUE: u64 = 7;

pub open spec fn order() -> nat {
    GROUP_ORDER as nat
}

/// Addition modulo the group order: the group operation on elements, and
/// addition in the scalar field.
pub open spec fn mod_add(a: nat, b: nat) -> nat {
    (a + b) % order()
}

/// Multiplication modulo the group order: scalar multiplication of a group
/// element (exponentiation, multiplicatively written), and multiplication in
/// the scalar field.
pub open spec fn mod_mul(a: nat, b: nat) -> nat {
    (a * b) % order()
}

/// Subtraction modulo the group order.
pub open spec fn mod_sub(a: nat, b: nat) -> nat {
    mod_add(a, (order() - b % order()) as nat)
}

/// The group element `g^x`.
pub open spec fn g_pow(x: nat) -> nat {
    mod_mul(GENERATOR_VALUE as nat, x)
}

/// The canonical representative of a residue is again that residue.
pub proof fn lemma_canon_value(v: nat)
    ensures
        canon(v).value() == v % order(),
        canon(v).reduced(),
        canon_scalar(v).value() == v % order(),
        canon_scalar(v).reduced(),
{
    lemma_mod_twice(v as int, GROUP_ORDER as int);
}

/// Subtraction modulo the group order is the Euclidean remainder of the
/// integer difference.
pub proof fn lemma_mod_sub_is_mod(a: nat, b: nat)
    ensures
        mod_sub(a, b) as int == (a as int - b as int) % (order() as int),
{
    let p = order() as int;
    let ai = a as int;
    let bi = b as int;
    lemma_fundamental_div_mod(ai, p);
    lemma_fundamental_div_mod(bi, p);
    assert(ai % p + (p - bi % p) == p * (1 - ai / p + bi / p) + (ai - bi)) by (nonlinear_arith)
        requires
            p > 0,
            ai == p * (ai / p) + ai % p,
            bi == p * (bi / p) + bi % p,
    ;
    lemma_mod_multiples_vanish(1 - ai / p + bi / p, ai - bi, p);
}

/// The sigma-protocol completeness identity: for any base `b`,
/// `b^(z + c*w) == b^z * (b^w)^c` (multiplicatively written).
pub proof fn lemma_response_equation(b: nat, z: nat, c: nat, w: nat)
    ensures
        mod_mul(b, mod_add(z, mod_mul(c, w))) == mod_add(
            mod_mul(b, z),
            mod_mul(mod_mul(b, w), c),
        ),
{
    let p = order() as int;
    let bi = b as int;
    let zi = z as int;
    let ci = c as int;
    let wi = w as int;
    let t = (ci * wi) % p;
    lemma_mul_mod_noop_right(bi, zi + t, p);
    assert(bi * (zi + t) == bi * zi + bi * t) by (nonlinear_arith);
    lemma_add_mod_noop(bi * zi, bi * t, p);
    lemma_mul_mod_noop_right(bi, ci * wi, p);
    lemma_mul_mod_noop_left(bi * wi, ci, p);
    assert(bi * (ci * wi) == (bi * wi) * ci) by (nonlinear_arith);
    lemma_add_mod_noop(bi * zi, (bi * wi) * ci, p);
}

/// For a base of nonzero residue, bumping the exponent by one changes the
/// scaled result.
pub proof fn lemma_scale_tamper(b: nat, r1: nat, r2: nat)
    requires
        b % order() != 0,
        r2 == mod_add(r1, 1),
    ensures
        mod_mul(b, r2) != mod_mul(b, r1),
{
    let p = order() as int;
    let bi = b as int;
    let r1i = r1 as int;
    lemma_mul_mod_noop_right(bi, r1i + 1, p);
    assert(bi * (r1i + 1) == bi * r1i + bi) by (nonlinear_arith);
    if mod_mul(b, r2) == mod_mul(b, r1) {
        lemma_add_mod_noop(bi * r1i, bi, p);
        let t = (bi * r1i) % p;
        let u = bi % p;
        lemma_mod_pos_bound(bi * r1i, p);
        lemma_mod_pos_bound(bi, p);
        lemma_mul_nonnegative(bi, r1i);
        if t + u < p {
            lemma_small_mod((t + u) as nat, order());
        } else {
            lemma_mod_sub_multiples_vanish(t + u, p);
            lemma_small_mod((t + u - p) as nat, order());
        }
    }
}

/// An element of the group: a residue modulo `GROUP_ORDER`. Values produced
/// by this library are always reduced; operations reduce their inputs, so an
/// unreduced value still denotes its residue.
#[derive(Clone, Copy, Debug, PartialEq, Eq, Hash, Structural)]
pub struct CurveElem(pub u64);

/// An element of the scalar field: a residue modulo `GROUP_ORDER`. Used as
/// secret keys, encryption randomness, and proof responses.
#[derive(Clone, Copy, Debug, PartialEq, Eq, Hash, Structural)]
pub struct Scalar(pub u64);

/// The reduced group element denoting the residue `v`.
pub open spec fn canon(v: nat) -> CurveElem {
    CurveElem((v % order()) as u64)
}

/// The reduced scalar denoting the residue `v`.
pub open spec fn canon_scalar(v: nat) -> Scalar {
    Scalar((v % order()) as u64)
}

/// What decoding a text as a group element yields: the element, when the text
/// is decodable base64 denoting exactly eight little-endian bytes below the
/// group order; the encoding error otherwise.
pub open spec fn elem_from_base64(s: Seq<char>) -> Result<CurveElem, CryptoError> {
    match b64_decode_of(s) {
        Some(b) => if b.len() == 8 && vstd::bytes::spec_u64_from_le_bytes(b) < GROUP_ORDER {
            Ok(CurveElem(vstd::bytes::spec_u64_from_le_bytes(b)))
        } else {
            Err(CryptoError::InvalidEncoding)
        },
        None => Err(CryptoError::InvalidEncoding),
    }
}

impl CurveElem {
    /// The residue this element denotes.
    pub open spec fn value(&self) -> nat {
        self.0 as nat % order()
    }

    /// Whether the representation is the canonical one.
    pub open spec fn reduced(&self) -> bool {
        self.0 < GROUP_ORDER
    }

    /// The fixed generator.
    pub fn generator() -> (r: CurveElem)
        ensures
            r == CurveElem(GENERATOR_VALUE),
            r.reduced(),
            r.value() == GENERATOR_VALUE as nat,
    {
        proof {
            lemma_small_mod(GENERATOR_VALUE as nat, order());
        }
        CurveElem(GENERATOR_VALUE)
    }

    /// This element scaled by a scalar: `self^power`, multiplicatively
    /// written.
    pub fn scaled(&self, power: &Scalar) -> (r: CurveElem)
        ensures
            r == canon(mod_mul(self.value(), power.value())),
            r.reduced(),
    {
        let a: u64 = self.0 % GROUP_ORDER;
        let b: u64 = power.0 % GROUP_ORDER;
        proof {
            assert((a as int) * (b as int) <= (GROUP_ORDER - 1) as int * (GROUP_ORDER - 1) as int)
                by (nonlinear_arith)
                requires
                    0 <= a < GROUP_ORDER,
                    0 <= b < GROUP_ORDER,
            ;
            lemma_mul_nonnegative(a as int, b as int);
            lemma_mod_twice((a as int) * (b as int), GROUP_ORDER as int);
        }
        let p: u128 = (a as u128) * (b as u128);
        CurveElem((p % (GROUP_ORDER as u128)) as u64)
    }

    /// The canonical eight-byte little-endian encoding of this element's
    /// residue.
    pub open spec fn bytes(&self) -> Seq<u8> {
        spec_u64_to_le_bytes(self.value() as u64)
    }

    /// The canonical byte encoding.
    pub fn as_bytes(&self) -> (r: Vec<u8>)
        ensures
            r@ == self.bytes(),
            r@.len() == 8,
    {
        u64_to_le_bytes(self.0 % GROUP_ORDER)
    }

    /// Decodes the canonical byte encoding: exactly eight little-endian bytes
    /// denoting a residue below the group order.
    pub fn from_bytes(bytes: &[u8]) -> (r: Result<CurveElem, CryptoError>)
        ensures
            (if bytes@.len() == 8 && spec_u64_from_le_bytes(bytes@) < GROUP_ORDER {
                r == Ok::<CurveElem, CryptoError>(CurveElem(spec_u64_from_le_bytes(bytes@)))
            } else {
                r == Err::<CurveElem, CryptoError>(CryptoError::InvalidEncoding)
            }),
            r matches Ok(e) ==> e.reduced() && bytes@ == e.bytes(),
    {
        proof {
            lemma_auto_spec_u64_to_from_le_bytes();
        }
        if bytes.len() == 8 {
            let v = u64_from_le_bytes(bytes);
            if v < GROUP_ORDER {
                proof {
                    lemma_small_mod(v as nat, order());
                }
                Ok(CurveElem(v))
            } else {
                Err(CryptoError::InvalidEncoding)
            }
        } else {
            Err(CryptoError::InvalidEncoding)
        }
    }

    /// The canonical text encoding: base64 of the canonical byte encoding.
    pub fn as_base64(&self) -> (r: String)
        ensures
            r@ == b64_of(self.bytes()),
            forall|i: int| 0 <= i < r@.len() ==> r@[i] != ':',
    {
        let bytes = self.as_bytes();
        b64_encode(&bytes)
    }

    /// Decodes the canonical text encoding: exactly `elem_from_base64`, so
    /// `Ok` comes if and only if the text is decodable base64 denoting eight
    /// little-endian bytes below the group order; on the encoding of any
    /// element it returns that element.
    pub fn try_from_base64(encoded: &str) -> (r: Result<CurveElem, CryptoError>)
        ensures
            r == elem_from_base64(encoded@),
            forall|v: u64|
                v < GROUP_ORDER && encoded@ == b64_of(spec_u64_to_le_bytes(v)) ==> r == Ok::<
                    CurveElem,
                    CryptoError,
                >(CurveElem(v)),
            r matches Ok(e) ==> e.reduced(),
    {
        proof {
            lemma_auto_spec_u64_to_from_le_bytes();
        }
        match b64_decode(encoded) {
            Some(bytes) => CurveElem::from_bytes(bytes.as_slice()),
            None => Err(CryptoError::InvalidEncoding),
        }
    }

    /// The group element denoted by a scalar's residue.
    pub fn from_scalar(s: &Scalar) -> (r: CurveElem)
        ensures
            r == canon(s.value()),
            r.reduced(),
    {
        proof {
            lemma_mod_twice(s.0 as int, GROUP_ORDER as int);
        }
        CurveElem(s.0 % GROUP_ORDER)
    }
}

impl core::ops::Add for CurveElem {
    type Output = CurveElem;

    /// The group operation.
    fn add(self, rhs: CurveElem) -> (r: CurveElem)
        ensures
            r == canon(mod_add(self.value(), rhs.value())),
            r.reduced(),
    {
        let a: u64 = self.0 % GROUP_ORDER;
        let b: u64 = rhs.0 % GROUP_ORDER;
        proof {
            lemma_mod_twice(a as int + b as int, GROUP_ORDER as int);
        }
        CurveElem((a + b) % GROUP_ORDER)
    }
}

impl vstd::std_specs::ops::AddSpecImpl for CurveElem {
    open spec fn obeys_add_spec() -> bool {
        true
    }

    open spec fn add_req(self, rhs: CurveElem) -> bool {
        true
    }

    open spec fn add_spec(self, rhs: CurveElem) -> CurveElem {
        canon(mod_add(self.value(), rhs.value()))
    }
}

impl core::ops::Sub for CurveElem {
    type Output = CurveElem;

    /// The inverse group operation: `self - rhs`, that is, `self` combined
    /// with the inverse of `rhs`.
    fn sub(self, rhs: CurveElem) -> (r: CurveElem)
        ensures
            r == canon(mod_sub(self.value(), rhs.value())),
            r.reduced(),
    {
        let a: u64 = self.0 % GROUP_ORDER;
        let b: u64 = rhs.0 % GROUP_ORDER;
        proof {
            lemma_mod_twice(rhs.0 as int, GROUP_ORDER as int);
            lemma_mod_twice(a as int + (GROUP_ORDER - b) as int, GROUP_ORDER as int);
        }
        CurveElem((a + (GROUP_ORDER - b)) % GROUP_ORDER)
    }
}

impl vstd::std_specs::ops::SubSpecImpl for CurveElem {
    open spec fn obeys_sub_spec() -> bool {
        true
    }

    open spec fn sub_req(self, rhs: CurveElem) -> bool {
        true
    }

    open spec fn sub_spec(self, rhs: CurveElem) -> CurveElem {
        canon(mod_sub(self.value(), rhs.value()))
    }
}

impl Scalar {
    /// The residue this scalar denotes.
    pub open spec fn value(&self) -> nat {
        self.0 as nat % order()
    }

    /// Whether the representation is the canonical one.
    pub open spec fn reduced(&self) -> bool {
        self.0 < GROUP_ORDER
    }

    /// The canonical eight-byte little-endian encoding of this scalar's
    /// residue.
    pub open spec fn bytes(&self) -> Seq<u8> {
        spec_u64_to_le_bytes(self.value() as u64)
    }

    /// The canonical byte encoding.
    pub fn as_bytes(&self) -> (r: Vec<u8>)
        ensures
            r@ == self.bytes(),
            r@.len() == 8,
    {
        u64_to_le_bytes(self.0 % GROUP_ORDER)
    }

    /// The canonical text encoding: base64 of the canonical byte encoding.
    pub fn as_base64(&self) -> (r: String)
        ensures
            r@ == b64_of(self.bytes()),
            forall|i: int| 0 <= i < r@.len() ==> r@[i] != ':',
    {
        let bytes = self.as_bytes();
        b64_encode(&bytes)
    }

    /// Addition in the scalar field.
    pub fn add(&self, rhs: &Scalar) -> (r: Scalar)
        ensures
            r == canon_scalar(mod_add(self.value(), rhs.value())),
            r.reduced(),
    {
        let a: u64 = self.0 % GROUP_ORDER;
        let b: u64 = rhs.0 % GROUP_ORDER;
        proof {
            lemma_mod_twice(a as int + b as int, GROUP_ORDER as int);
        }
        Scalar((a + b) % GROUP_ORDER)
    }

    /// Multiplication in the scalar field.
    pub fn mul(&self, rhs: &Scalar) -> (r: Scalar)
        ensures
            r == canon_scalar(mod_mul(self.value(), rhs.value())),
            r.reduced(),
    {
        let a: u64 = self.0 % GROUP_ORDER;
        let b: u64 = rhs.0 % GROUP_ORDER;
        proof {
            assert((a as int) * (b as int) <= (GROUP_ORDER - 1) as int * (GROUP_ORDER - 1) as int)
                by (nonlinear_arith)
                requires
                    0 <= a < GROUP_ORDER,
                    0 <= b < GROUP_ORDER,
            ;
            lemma_mul_nonnegative(a as int, b as int);
            lemma_mod_twice((a as int) * (b as int), GROUP_ORDER as int);
        }
        let p: u128 = (a as u128) * (b as u128);
        Scalar((p % (GROUP_ORDER as u128)) as u64)
    }
}

} // verus!

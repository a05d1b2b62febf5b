//! ElGamal-style encryption over the group: key pairs, homomorphic
//! ciphertexts, an authenticated-ciphertext wrapper, and the crypto context
//! that owns the secure randomness handle and the fixed generator.

use vstd::arithmetic::div_mod::*;
use vstd::prelude::*;
use vstd::string::*;

use crate::CryptoError;
use crate::EncodingError;
use crate::encoding::b64_encode;
use crate::encoding::b64_of;
use crate::encoding::colon_free;
use crate::encoding::count_matching;
use crate::encoding::lemma_count_absent;
use crate::encoding::lemma_count_concat;
use crate::encoding::lemma_count_two;
use crate::group::CurveElem;
use crate::group::GENERATOR_VALUE;
use crate::group::GROUP_ORDER;
use crate::group::Scalar;
use crate::group::canon;
use crate::group::elem_from_base64;
use crate::group::g_pow;
use crate::group::lemma_canon_value;
use crate::group::lemma_mod_sub_is_mod;
use crate::group::mod_add;
use crate::group::mod_mul;
use crate::group::mod_sub;
use crate::group::order;
use crate::hashing::Hasher;
use crate::hashing::sha512_of;

verus! {

#[verifier::external_type_specification]
#[verifier::external_body]
pub struct ExSystemRandom(ring::rand::SystemRandom);

#[verifier::external_type_specification]
#[verifier::external_body]
pub struct ExUnspecified(ring::error::Unspecified);

/// Relies on ring::rand::SystemRandom's derived Clone: the handle is a unit
/// struct without state, and a clone is another handle to the same source.
pub assume_specification[ <ring::rand::SystemRandom as Clone>::clone ](
    rng: &ring::rand::SystemRandom,
) -> ring::rand::SystemRandom;

/// Relies on ring::rand::SystemRandom::new: constructing a handle to the
/// system's secure random source; it is documented always to succeed.
#[verifier::external_body]
fn new_system_random() -> ring::rand::SystemRandom {
    ring::rand::SystemRandom::new()
}

/// Relies on ring::rand::SecureRandom::fill for SystemRandom: on success the
/// buffer holds `n` freshly drawn random bytes. Draws are independent; no
/// particular outcome is promised of them.
#[verifier::external_body]
fn fill_random(rng: &ring::rand::SystemRandom, n: usize) -> (r: Result<
    Vec<u8>,
    ring::error::Unspecified,
>)
    ensures
        r matches Ok(v) ==> v@.len() == n,
{
    let mut buf = vec![0u8; n];
    match ring::rand::SecureRandom::fill(rng, &mut buf) {
        Ok(()) => Ok(buf),
        Err(e) => Err(e),
    }
}

/// The ciphertext an honest encryption produces: `c1 = g^r`,
/// `c2 = m * y^r` (multiplicatively written).
pub open spec fn spec_encrypt(y: CurveElem, m: CurveElem, r: Scalar) -> Ciphertext {
    Ciphertext {
        c1: canon(g_pow(r.value())),
        c2: canon(mod_add(m.value(), mod_mul(y.value(), r.value()))),
    }
}

/// Componentwise combination of two ciphertexts.
pub open spec fn spec_add(a: Ciphertext, b: Ciphertext) -> Ciphertext {
    Ciphertext {
        c1: canon(mod_add(a.c1.value(), b.c1.value())),
        c2: canon(mod_add(a.c2.value(), b.c2.value())),
    }
}

/// The residue a ciphertext decrypts to under the secret `x`:
/// `c2 / c1^x` (multiplicatively written).
pub open spec fn spec_decrypt(ct: Ciphertext, x: nat) -> nat {
    mod_sub(ct.c2.value(), mod_mul(ct.c1.value(), x))
}

/// Re-randomization: the ciphertext combined with a fresh encryption of the
/// identity under randomness `r`.
pub open spec fn spec_rerand(y: CurveElem, ct: Ciphertext, r: Scalar) -> Ciphertext {
    Ciphertext {
        c1: canon(mod_add(ct.c1.value(), g_pow(r.value()))),
        c2: canon(mod_add(ct.c2.value(), mod_mul(y.value(), r.value()))),
    }
}

/// The canonical text of a ciphertext: base64 of each component, joined by a
/// colon.
pub open spec fn ct_text(ct: Ciphertext) -> Seq<char> {
    b64_of(ct.c1.bytes()) + seq![':'] + b64_of(ct.c2.bytes())
}

/// Whether `value` is the canonical text of the (reduced) ciphertext `ct`,
/// with neither component's base64 text containing a colon.
pub open spec fn decodes_to(value: Seq<char>, ct: Ciphertext) -> bool {
    &&& ct.c1.reduced()
    &&& ct.c2.reduced()
    &&& colon_free(b64_of(ct.c1.bytes()))
    &&& colon_free(b64_of(ct.c2.bytes()))
    &&& value == ct_text(ct)
}

/// Whether `[a, b)` is a maximal colon-free run of `s`: one of the segments
/// that splitting `s` on ':' yields.
pub open spec fn colon_segment(s: Seq<char>, a: int, b: int) -> bool {
    &&& 0 <= a <= b <= s.len()
    &&& (a == 0 || s[a - 1] == ':')
    &&& (b == s.len() || s[b] == ':')
    &&& (forall|j: int| a <= j < b ==> s[j] != ':')
}

/// The integrity tag bound to a plaintext: the SHA-512 digest of its
/// canonical byte encoding.
pub open spec fn plain_tag(m: CurveElem) -> Seq<u8> {
    sha512_of(m.bytes())
}

/// What authenticated decryption returns: the decrypted element if its
/// recomputed tag matches the stored one, and nothing otherwise.
pub open spec fn spec_auth_decrypt(act: AuthCiphertext, x: nat) -> Option<CurveElem> {
    let m = canon(spec_decrypt(act.contents, x));
    if act.hash@ == plain_tag(m) {
        Some(m)
    } else {
        None
    }
}

/// A key pair: the secret scalar, the public group element `g^x`, and the
/// public key wrapping it.
#[derive(Clone, Copy)]
pub struct KeyPair {
    pub pk: PublicKey,
    pub x_i: Scalar,
    pub y_i: CurveElem,
}

impl KeyPair {
    /// Well-formedness: the public element is the generator raised to the
    /// secret.
    pub open spec fn wf(&self) -> bool {
        &&& self.pk.y == self.y_i
        &&& self.y_i == canon(g_pow(self.x_i.value()))
        &&& self.x_i.reduced()
    }

    fn new(ctx: &mut CryptoContext) -> (r: Result<Self, CryptoError>)
        ensures
            r matches Ok(kp) ==> kp.wf(),
            r is Err ==> r == Err::<KeyPair, CryptoError>(CryptoError::RandomnessUnavailable),
    {
        let x_i = match ctx.random_power() {
            Ok(x) => x,
            Err(e) => {
                return Err(e);
            },
        };
        let y_i = ctx.g_to(&x_i);
        let pk = PublicKey::new(y_i);
        Ok(Self { pk, x_i, y_i })
    }
}

/// A public encryption key: the group element `y = g^x`.
#[derive(Clone, Copy, Debug, PartialEq, Eq, Hash, Structural)]
pub struct PublicKey {
    pub y: CurveElem,
}

impl PublicKey {
    pub fn new(value: CurveElem) -> (r: Self)
        ensures
            r.y == value,
    {
        Self { y: value }
    }

    /// Encrypts `m` under this key with the caller-supplied randomness `r`.
    /// Randomness must be fresh for every semantically distinct message; the
    /// caller upholds that, it is not enforced here.
    pub fn encrypt(&self, ctx: &CryptoContext, m: &CurveElem, r: &Scalar) -> (ct: Ciphertext)
        ensures
            ct == spec_encrypt(self.y, *m, *r),
            ct.c1.reduced() && ct.c2.reduced(),
    {
        let c1 = ctx.g_to(r);
        let c2 = *m + self.y.scaled(r);
        proof {
            lemma_canon_value(mod_mul(self.y.value(), r.value()));
            lemma_mod_twice((self.y.value() * r.value()) as int, GROUP_ORDER as int);
        }
        Ciphertext { c1, c2 }
    }

    /// Encrypts `m` and binds the digest of its canonical byte encoding.
    pub fn encrypt_auth(&self, ctx: &CryptoContext, m: &CurveElem, r: &Scalar) -> (act:
        AuthCiphertext)
        ensures
            act.contents == spec_encrypt(self.y, *m, *r),
            act.hash@ == plain_tag(*m),
    {
        let ct = self.encrypt(ctx, m, r);
        AuthCiphertext::new(&ct, m)
    }

    /// Combines `ct` with a fresh encryption of the identity: the result
    /// decrypts to the same plaintext but is unlinkable to `ct`.
    pub fn rerand(self, ctx: &CryptoContext, ct: &Ciphertext, r: &Scalar) -> (res: Ciphertext)
        ensures
            res == spec_rerand(self.y, *ct, *r),
            res.c1.reduced() && res.c2.reduced(),
    {
        let c1 = ct.c1 + ctx.g_to(r);
        let c2 = ct.c2 + self.y.scaled(r);
        proof {
            lemma_canon_value(g_pow(r.value()));
            lemma_canon_value(mod_mul(self.y.value(), r.value()));
            lemma_mod_twice((GENERATOR_VALUE as nat * r.value()) as int, GROUP_ORDER as int);
            lemma_mod_twice((self.y.value() * r.value()) as int, GROUP_ORDER as int);
        }
        Ciphertext { c1, c2 }
    }

    /// The canonical text encoding of this key.
    pub fn as_base64(&self) -> (r: String)
        ensures
            r@ == b64_of(self.y.bytes()),
    {
        self.y.as_base64()
    }

    /// Decodes the canonical text encoding: `Ok` comes if and only if the
    /// text decodes as a group element, and then wraps exactly that element;
    /// on the encoding of any key it returns that key.
    pub fn try_from_base64(encoded: &str) -> (r: Result<Self, CryptoError>)
        ensures
            (match elem_from_base64(encoded@) {
                Ok(y) => r == Ok::<PublicKey, CryptoError>((PublicKey { y })),
                Err(e) => r == Err::<PublicKey, CryptoError>(e),
            }),
            forall|k: PublicKey|
                k.y.reduced() && encoded@ == b64_of(k.y.bytes()) ==> r == Ok::<
                    PublicKey,
                    CryptoError,
                >(k),
            r matches Ok(k) ==> k.y.reduced(),
    {
        let inner = CurveElem::try_from_base64(encoded);
        proof {
            assert forall|k: PublicKey|
                k.y.reduced() && encoded@ == b64_of(k.y.bytes()) implies inner == Ok::<
                CurveElem,
                CryptoError,
            >(k.y) by {
                lemma_small_mod(k.y.0 as nat, order());
                assert(k.y.bytes() == vstd::bytes::spec_u64_to_le_bytes(k.y.0));
                assert(CurveElem(k.y.0) == k.y);
            }
        }
        match inner {
            Ok(y) => Ok(Self { y }),
            Err(e) => Err(e),
        }
    }
}

/// An ElGamal ciphertext: the pair `(c1, c2) = (g^r, m * y^r)`,
/// multiplicatively written. Supports homomorphic combination.
#[derive(Clone, Copy, Debug, PartialEq, Eq, Structural)]
pub struct Ciphertext {
    pub c1: CurveElem,
    pub c2: CurveElem,
}

impl Ciphertext {
    /// Componentwise combination: decrypts to the combination of the two
    /// plaintexts.
    pub fn add(&self, rhs: &Self) -> (r: Self)
        ensures
            r == spec_add(*self, *rhs),
            r.c1.reduced() && r.c2.reduced(),
    {
        Ciphertext { c1: self.c1 + rhs.c1, c2: self.c2 + rhs.c2 }
    }

    /// Decrypts with the secret scalar. No validity check: a wrong key
    /// silently yields a wrong element.
    pub fn decrypt(&self, secret_key: &Scalar) -> (r: CurveElem)
        ensures
            r == canon(spec_decrypt(*self, secret_key.value())),
            r.reduced(),
    {
        proof {
            lemma_canon_value(mod_mul(self.c1.value(), secret_key.value()));
            lemma_mod_twice((self.c1.value() * secret_key.value()) as int, GROUP_ORDER as int);
        }
        self.c2 - self.c1.scaled(secret_key)
    }

    /// The canonical text encoding: the two components' base64 texts joined
    /// by a colon.
    pub fn to_string(&self) -> (r: String)
        ensures
            r@ == ct_text(*self),
            colon_free(b64_of(self.c1.bytes())),
            colon_free(b64_of(self.c2.bytes())),
            self.c1.reduced() && self.c2.reduced() ==> decodes_to(r@, *self),
    {
        let mut s = self.c1.as_base64();
        s.append(":");
        let s2 = self.c2.as_base64();
        s.append(s2.as_str());
        proof {
            reveal_strlit(":");
            assert(":"@ =~= seq![':']);
            assert(s@ =~= ct_text(*self));
        }
        s
    }

    /// Decodes the canonical text encoding. `Ok` comes if and only if the
    /// text has exactly two colon-separated segments, each decoding to a
    /// well-formed element, and then carries exactly those elements in order;
    /// a malformed segment is reported ahead of a wrong segment count; on the
    /// text of any ciphertext it returns that ciphertext.
    pub fn try_from(value: String) -> (r: Result<Self, EncodingError>)
        ensures
            forall|ct: Ciphertext| #[trigger] decodes_to(value@, ct) ==> r == Ok::<
                Ciphertext,
                EncodingError,
            >(ct),
            r matches Ok(ct) ==> ct.c1.reduced() && ct.c2.reduced(),
            count_matching(value@, ':') != 1 ==> r is Err,
            r matches Ok(ct) ==> count_matching(value@, ':') == 1 && (exists|p: int|
                0 <= p < value@.len() && value@[p] == ':' && elem_from_base64(
                    #[trigger] value@.subrange(0, p),
                ) == Ok::<CurveElem, CryptoError>(ct.c1) && elem_from_base64(
                    value@.subrange(p + 1, value@.len() as int),
                ) == Ok::<CurveElem, CryptoError>(ct.c2)),
            forall|p: int|
                #![trigger value@.subrange(0, p)]
                0 <= p < value@.len() && value@[p] == ':' && count_matching(value@, ':') == 1
                    && elem_from_base64(value@.subrange(0, p)) is Ok && elem_from_base64(
                    value@.subrange(p + 1, value@.len() as int),
                ) is Ok ==> r == Ok::<Ciphertext, EncodingError>(
                    (Ciphertext {
                        c1: elem_from_base64(value@.subrange(0, p))->Ok_0,
                        c2: elem_from_base64(value@.subrange(p + 1, value@.len() as int))->Ok_0,
                    }),
                ),
            forall|p: int|
                #![trigger value@.subrange(0, p)]
                0 <= p < value@.len() && value@[p] == ':' && count_matching(value@, ':') == 1 && (
                elem_from_base64(value@.subrange(0, p)) is Err || elem_from_base64(
                    value@.subrange(p + 1, value@.len() as int),
                ) is Err) ==> r == Err::<Ciphertext, EncodingError>(EncodingError::CurveElem),
            (count_matching(value@, ':') != 1 && (forall|a: int, b: int|
                #[trigger] colon_segment(value@, a, b) ==> elem_from_base64(
                    value@.subrange(a, b),
                ) is Ok)) ==> r == Err::<Ciphertext, EncodingError>(EncodingError::Length),
    {
        let s = value.as_str();
        let n = s.unicode_len();
        // First pass: count the colons and note the first one.
        let mut ncolons: usize = 0;
        let mut first: usize = n;
        let mut i: usize = 0;
        while i < n
            invariant
                s@ == value@,
                n == value@.len(),
                i <= n,
                ncolons <= i,
                ncolons == count_matching(value@.take(i as int), ':'),
                ncolons == 0 ==> first == n && (forall|j: int| 0 <= j < i ==> value@[j] != ':'),
                ncolons > 0 ==> first < i && value@[first as int] == ':' && (forall|j: int|
                    0 <= j < first ==> value@[j] != ':'),
            decreases n - i,
        {
            let c = s.get_char(i);
            proof {
                assert(value@.take(i as int + 1).drop_last() =~= value@.take(i as int));
            }
            if c == ':' {
                if ncolons == 0 {
                    first = i;
                }
                ncolons = ncolons + 1;
            }
            i = i + 1;
        }
        proof {
            assert(value@.take(n as int) =~= value@);
        }
        if ncolons == 1 {
            let seg1 = s.substring_char(0, first);
            let seg2 = s.substring_char(first + 1, n);
            let d1 = CurveElem::try_from_base64(seg1);
            let d2 = CurveElem::try_from_base64(seg2);
            proof {
                // the single colon pins the split point
                assert forall|p: int|
                    0 <= p < value@.len() && value@[p] == ':' implies p == first as int by {
                    if p > first as int {
                        lemma_count_two(value@, ':', first as int, p);
                    }
                }
                assert(seg1@ == value@.subrange(0, first as int));
                assert(seg2@ == value@.subrange(first as int + 1, value@.len() as int));
                assert forall|ct: Ciphertext| #[trigger] decodes_to(value@, ct) implies d1 == Ok::<
                    CurveElem,
                    CryptoError,
                >(ct.c1) && d2 == Ok::<CurveElem, CryptoError>(ct.c2) && (Ciphertext {
                    c1: ct.c1,
                    c2: ct.c2,
                }) == ct by {
                    let a = b64_of(ct.c1.bytes());
                    let b = b64_of(ct.c2.bytes());
                    let la = a.len() as int;
                    assert(value@[la] == ':');
                    assert forall|j: int| 0 <= j < la implies value@[j] != ':' by {
                        assert(value@[j] == a[j]);
                    }
                    assert(first == la);
                    assert(seg1@ =~= a);
                    assert forall|j: int| 0 <= j < b.len() implies seg2@[j] == b[j] by {
                        assert(value@[la + 1 + j] == b[j]);
                    }
                    assert(seg2@ =~= b);
                    lemma_small_mod(ct.c1.0 as nat, order());
                    lemma_small_mod(ct.c2.0 as nat, order());
                    assert(CurveElem(ct.c1.0) == ct.c1);
                    assert(CurveElem(ct.c2.0) == ct.c2);
                }
            }
            let c1 = match d1 {
                Ok(e) => e,
                Err(_) => {
                    return Err(EncodingError::CurveElem);
                },
            };
            let c2 = match d2 {
                Ok(e) => e,
                Err(_) => {
                    return Err(EncodingError::CurveElem);
                },
            };
            proof {
                assert(first < value@.len());
                assert(value@[first as int] == ':');
                assert(elem_from_base64(value@.subrange(0, first as int)) == Ok::<
                    CurveElem,
                    CryptoError,
                >(c1));
                assert(elem_from_base64(value@.subrange(first as int + 1, value@.len() as int))
                    == Ok::<CurveElem, CryptoError>(c2));
            }
            Ok(Ciphertext { c1, c2 })
        } else {
            proof {
                assert forall|ct: Ciphertext| !(#[trigger] decodes_to(value@, ct)) by {
                    if decodes_to(value@, ct) {
                        let a = b64_of(ct.c1.bytes());
                        let b = b64_of(ct.c2.bytes());
                        lemma_count_concat(a + seq![':'], b, ':');
                        lemma_count_concat(a, seq![':'], ':');
                        lemma_count_absent(a, ':');
                        lemma_count_absent(b, ':');
                        assert(count_matching(Seq::<char>::empty(), ':') == 0);
                        assert(seq![':'].drop_last() =~= Seq::<char>::empty());
                        assert(count_matching(seq![':'], ':') == 1);
                    }
                }
            }
            // Not two segments: still decode each in order, so that a
            // malformed element is reported ahead of the wrong count.
            let mut start: usize = 0;
            let mut i2: usize = 0;
            while i2 < n
                invariant
                    s@ == value@,
                    n == value@.len(),
                    start <= i2 <= n,
                    count_matching(value@, ':') != 1,
                    start == 0 || value@[start as int - 1] == ':',
                    forall|j: int| start <= j < i2 ==> value@[j] != ':',
                    forall|ct: Ciphertext| !(#[trigger] decodes_to(value@, ct)),
                decreases n - i2,
            {
                let c = s.get_char(i2);
                if c == ':' {
                    let seg = s.substring_char(start, i2);
                    let d = CurveElem::try_from_base64(seg);
                    proof {
                        assert(seg@ == value@.subrange(start as int, i2 as int));
                        assert(colon_segment(value@, start as int, i2 as int));
                    }
                    if d.is_err() {
                        return Err(EncodingError::CurveElem);
                    }
                    start = i2 + 1;
                }
                i2 = i2 + 1;
            }
            let seg = s.substring_char(start, n);
            let d = CurveElem::try_from_base64(seg);
            proof {
                assert(seg@ == value@.subrange(start as int, n as int));
                assert(colon_segment(value@, start as int, n as int));
            }
            if d.is_err() {
                return Err(EncodingError::CurveElem);
            }
            Err(EncodingError::Length)
        }
    }
}

/// A ciphertext bound to a digest of its plaintext, checked again at
/// decryption time.
#[derive(Clone, Debug)]
pub struct AuthCiphertext {
    pub contents: Ciphertext,
    pub hash: Vec<u8>,
}

impl AuthCiphertext {
    /// Binds the digest of the plaintext's canonical byte encoding to the
    /// ciphertext.
    pub fn new(ct: &Ciphertext, plaintext: &CurveElem) -> (r: Self)
        ensures
            r.contents == *ct,
            r.hash@ == plain_tag(*plaintext),
    {
        let bytes = plaintext.as_bytes();
        let hash = Hasher::sha_512().and_update(&bytes).finish();
        proof {
            assert(Seq::<u8>::empty() + bytes@ =~= bytes@);
        }
        Self { contents: ct.clone(), hash }
    }

    /// Whether the stored tag is the digest of `plaintext`.
    pub fn verify(&self, plaintext: &CurveElem) -> (r: bool)
        ensures
            r == (self.hash@ == plain_tag(*plaintext)),
    {
        let bytes = plaintext.as_bytes();
        let hash = Hasher::sha_512().and_update(&bytes).finish();
        proof {
            assert(Seq::<u8>::empty() + bytes@ =~= bytes@);
        }
        bytes_eq(&self.hash, &hash)
    }

    /// The display text `"(c1, c2)[tag]"`, each part base64; informational,
    /// not meant to round-trip.
    pub fn to_string(&self) -> (r: String)
        ensures
            r@ == seq!['('] + b64_of(self.contents.c1.bytes()) + seq![',', ' '] + b64_of(
                self.contents.c2.bytes(),
            ) + seq![')', '['] + b64_of(self.hash@) + seq![']'],
    {
        let mut s = String::from_str("(");
        let p1 = self.contents.c1.as_base64();
        s.append(p1.as_str());
        s.append(", ");
        let p2 = self.contents.c2.as_base64();
        s.append(p2.as_str());
        s.append(")[");
        let p3 = b64_encode(&self.hash);
        s.append(p3.as_str());
        s.append("]");
        proof {
            reveal_strlit("(");
            reveal_strlit(", ");
            reveal_strlit(")[");
            reveal_strlit("]");
            assert("("@ =~= seq!['(']);
            assert(", "@ =~= seq![',', ' ']);
            assert(")["@ =~= seq![')', '[']);
            assert("]"@ =~= seq![']']);
            assert(s@ =~= seq!['('] + b64_of(self.contents.c1.bytes()) + seq![',', ' '] + b64_of(
                self.contents.c2.bytes(),
            ) + seq![')', '['] + b64_of(self.hash@) + seq![']']);
        }
        s
    }

    /// Decrypts the inner ciphertext and accepts only if the recomputed
    /// digest matches the stored tag.
    pub fn decrypt(&self, secret_key: &Scalar) -> (r: Option<CurveElem>)
        ensures
            r == spec_auth_decrypt(*self, secret_key.value()),
    {
        let plaintext = self.contents.decrypt(secret_key);
        if self.verify(&plaintext) {
            Some(plaintext)
        } else {
            None
        }
    }
}

/// Byte-for-byte equality of two byte strings.
fn bytes_eq(a: &Vec<u8>, b: &Vec<u8>) -> (r: bool)
    ensures
        r == (a@ == b@),
{
    if a.len() != b.len() {
        return false;
    }
    let mut i: usize = 0;
    while i < a.len()
        invariant
            i <= a.len(),
            a@.len() == b@.len(),
            forall|j: int| 0 <= j < i ==> a@[j] == b@[j],
        decreases a.len() - i,
    {
        if a[i] != b[i] {
            return false;
        }
        i = i + 1;
    }
    proof {
        assert(a@ =~= b@);
    }
    true
}

/// The single point of access to secure randomness and the fixed generator.
/// Draws are made one full buffer at a time through the randomness handle, so
/// concurrent holders of clones each observe independent, atomically drawn
/// bytes.
pub struct CryptoContext {
    rng: ring::rand::SystemRandom,
    g: CurveElem,
}

impl Clone for CryptoContext {
    /// Another handle to the same randomness source and generator.
    fn clone(&self) -> (r: Self) {
        proof {
            use_type_invariant(self);
        }
        let rng = self.rng.clone();
        let g = self.g;
        Self { rng, g }
    }
}

impl CryptoContext {
    /// Well-formedness: the context's base point is the fixed generator.
    /// Every context satisfies it; `generator()` exposes its content.
    #[verifier::type_invariant]
    pub closed spec fn wf(&self) -> bool {
        self.g == CurveElem(GENERATOR_VALUE)
    }

    pub fn new() -> (r: Self)
        ensures
            r.wf(),
    {
        let rng = new_system_random();
        let g = CurveElem::generator();
        Self { rng, g }
    }

    /// The fixed base point.
    pub fn generator(&self) -> (r: CurveElem)
        ensures
            r == CurveElem(GENERATOR_VALUE),
            r.reduced(),
    {
        proof {
            use_type_invariant(self);
        }
        self.g
    }

    /// Draws a fresh key pair: a uniform secret scalar and its public
    /// element.
    pub fn gen_elgamal_key_pair(&mut self) -> (r: Result<KeyPair, CryptoError>)
        ensures
            r matches Ok(kp) ==> kp.wf(),
            r is Err ==> r == Err::<KeyPair, CryptoError>(CryptoError::RandomnessUnavailable),
    {
        KeyPair::new(self)
    }

    /// Draws a fresh uniform scalar.
    pub fn random_power(&mut self) -> (r: Result<Scalar, CryptoError>)
        ensures
            r matches Ok(s) ==> s.reduced(),
            r is Err ==> r == Err::<Scalar, CryptoError>(CryptoError::RandomnessUnavailable),
    {
        self.random_scalar()
    }

    /// Draws a fresh uniform scalar.
    pub fn random_scalar(&self) -> (r: Result<Scalar, CryptoError>)
        ensures
            r matches Ok(s) ==> s.reduced(),
            r is Err ==> r == Err::<Scalar, CryptoError>(CryptoError::RandomnessUnavailable),
    {
        match fill_random(&self.rng, 8) {
            Ok(buf) => {
                let v = vstd::bytes::u64_from_le_bytes(buf.as_slice());
                Ok(Scalar(v % GROUP_ORDER))
            },
            Err(_) => Err(CryptoError::RandomnessUnavailable),
        }
    }

    /// Draws a random group element, by drawing a scalar and mapping its
    /// residue into the group.
    pub fn random_elem(&self) -> (r: Result<CurveElem, CryptoError>)
        ensures
            r matches Ok(e) ==> e.reduced(),
            r is Err ==> r == Err::<CurveElem, CryptoError>(CryptoError::RandomnessUnavailable),
    {
        match self.random_scalar() {
            Ok(s) => Ok(CurveElem::from_scalar(&s)),
            Err(e) => Err(e),
        }
    }

    /// The generator raised to `power`; a pure function of its input.
    pub fn g_to(&self, power: &Scalar) -> (r: CurveElem)
        ensures
            r == canon(g_pow(power.value())),
            r.reduced(),
    {
        proof {
            use_type_invariant(self);
            lemma_small_mod(GENERATOR_VALUE as nat, order());
        }
        self.g.scaled(power)
    }
}

/// Decryption, written over integer normal forms of the two components: if
/// `c1` and `c2` denote the residues of `c1n` and `c2n`, the decryption is
/// the residue of `c2n - c1n * x`.
proof fn lemma_decrypt_normal(ct: Ciphertext, x: Scalar, c1n: int, c2n: int)
    requires
        ct.c1.value() as int == c1n % (order() as int),
        ct.c2.value() as int == c2n % (order() as int),
    ensures
        spec_decrypt(ct, x.value()) as int == (c2n - c1n * (x.value() as int)) % (order() as int),
{
    let p = order() as int;
    let xv = x.value() as int;
    lemma_mul_mod_noop_left(c1n, xv, p);
    lemma_mod_sub_is_mod(ct.c2.value(), mod_mul(ct.c1.value(), x.value()));
    lemma_sub_mod_noop(c2n, c1n * xv, p);
}

/// Law: decryption with the matching secret recovers the plaintext exactly,
/// for every plaintext and every randomness.
pub proof fn lemma_encrypt_decrypt(y: CurveElem, m: CurveElem, r: Scalar, x: Scalar)
    requires
        m.reduced(),
        y.value() == g_pow(x.value()),
    ensures
        canon(spec_decrypt(spec_encrypt(y, m, r), x.value())) == m,
{
    let p = order() as int;
    let g = GENERATOR_VALUE as int;
    let xv = x.value() as int;
    let rv = r.value() as int;
    let mv = m.value() as int;
    let ct = spec_encrypt(y, m, r);
    lemma_canon_value(g_pow(r.value()));
    lemma_canon_value(mod_add(m.value(), mod_mul(y.value(), r.value())));
    lemma_mod_twice(g * rv, p);
    lemma_mod_twice((mv + (y.value() * r.value()) as int % p), p);
    // c1 = (g*rv) % p; t2 = mod_mul(c1, x) = (g*rv*xv) % p
    lemma_mul_mod_noop_left(g * rv, xv, p);
    // t1 = mod_mul(y, rv) = (g*xv*rv) % p
    lemma_mul_mod_noop_left(g * xv, rv, p);
    assert(g * xv * rv == g * rv * xv) by (nonlinear_arith);
    // dec = mod_sub((mv + t1) % p, t2)
    lemma_mod_sub_is_mod(ct.c2.value(), mod_mul(ct.c1.value(), x.value()));
    lemma_sub_mod_noop(mv + ((g * rv * xv) % p), (g * rv * xv) % p, p);
    lemma_mod_twice(g * rv * xv, p);
    lemma_small_mod(m.value(), order());
    assert(spec_decrypt(ct, x.value()) as int == mv % p);
}

/// Law: the combination of two ciphertexts under one key decrypts to the
/// combination of their plaintexts.
#[verifier::rlimit(100)]
#[verifier::spinoff_prover]
pub proof fn lemma_homomorphism(y: CurveElem, m1: CurveElem, m2: CurveElem, r1: Scalar, r2: Scalar, x: Scalar)
    requires
        m1.reduced(),
        m2.reduced(),
        y.value() == g_pow(x.value()),
    ensures
        canon(spec_decrypt(spec_add(spec_encrypt(y, m1, r1), spec_encrypt(y, m2, r2)), x.value()))
            == canon(mod_add(m1.value(), m2.value())),
{
    let p = order() as int;
    let g = GENERATOR_VALUE as int;
    let xv = x.value() as int;
    let r1v = r1.value() as int;
    let r2v = r2.value() as int;
    let m1v = m1.value() as int;
    let m2v = m2.value() as int;
    let e1 = spec_encrypt(y, m1, r1);
    let e2 = spec_encrypt(y, m2, r2);
    let ct = spec_add(e1, e2);
    lemma_canon_value(g_pow(r1.value()));
    lemma_canon_value(g_pow(r2.value()));
    lemma_canon_value(mod_add(m1.value(), mod_mul(y.value(), r1.value())));
    lemma_canon_value(mod_add(m2.value(), mod_mul(y.value(), r2.value())));
    lemma_mod_twice(g * r1v, p);
    lemma_mod_twice(g * r2v, p);
    lemma_mul_mod_noop_left(g * xv, r1v, p);
    lemma_mul_mod_noop_left(g * xv, r2v, p);
    lemma_add_mod_noop_right(m1v, g * xv * r1v, p);
    lemma_add_mod_noop_right(m2v, g * xv * r2v, p);
    lemma_mod_twice(m1v + (g * xv * r1v) % p, p);
    lemma_mod_twice(m2v + (g * xv * r2v) % p, p);
    // e1.c1 and e1.c2 denote the residues of g*r1 and m1 + g*x*r1; same for e2
    assert(e1.c1.value() as int == (g * r1v) % p);
    assert(e1.c2.value() as int == (m1v + g * xv * r1v) % p);
    assert(e2.c1.value() as int == (g * r2v) % p);
    assert(e2.c2.value() as int == (m2v + g * xv * r2v) % p);
    // the combined components denote the residues of the integer sums
    lemma_canon_value(mod_add(e1.c1.value(), e2.c1.value()));
    lemma_canon_value(mod_add(e1.c2.value(), e2.c2.value()));
    lemma_add_mod_noop(g * r1v, g * r2v, p);
    lemma_add_mod_noop(m1v + g * xv * r1v, m2v + g * xv * r2v, p);
    lemma_mod_twice(((g * r1v) % p) + ((g * r2v) % p), p);
    lemma_mod_twice(((m1v + g * xv * r1v) % p) + ((m2v + g * xv * r2v) % p), p);
    assert(ct.c1.value() as int == (g * r1v + (g * r2v)) % p);
    assert(ct.c2.value() as int == ((m1v + g * xv * r1v) + (m2v + g * xv * r2v)) % p);
    lemma_decrypt_normal(ct, x, g * r1v + (g * r2v), (m1v + g * xv * r1v) + (m2v + g * xv * r2v));
    assert(((m1v + g * xv * r1v) + (m2v + g * xv * r2v)) - (g * r1v + (g * r2v)) * xv == m1v
        + m2v) by (nonlinear_arith);
    lemma_canon_value(mod_add(m1.value(), m2.value()));
    assert(spec_decrypt(ct, x.value()) == mod_add(m1.value(), m2.value()));
}

/// Law: re-randomization does not change what a ciphertext decrypts to, for
/// every ciphertext and every fresh randomness.
#[verifier::rlimit(60)]
pub proof fn lemma_rerand_decrypt(y: CurveElem, ct: Ciphertext, r: Scalar, x: Scalar)
    requires
        y.value() == g_pow(x.value()),
    ensures
        spec_decrypt(spec_rerand(y, ct, r), x.value()) == spec_decrypt(ct, x.value()),
{
    let p = order() as int;
    let g = GENERATOR_VALUE as int;
    let xv = x.value() as int;
    let rv = r.value() as int;
    let c1v = ct.c1.value() as int;
    let c2v = ct.c2.value() as int;
    let rr = spec_rerand(y, ct, r);
    lemma_canon_value(mod_add(ct.c1.value(), g_pow(r.value())));
    lemma_canon_value(mod_add(ct.c2.value(), mod_mul(y.value(), r.value())));
    lemma_mul_mod_noop_left(g * xv, rv, p);
    lemma_mod_twice(g * rv, p);
    lemma_add_mod_noop_right(c1v, g * rv, p);
    lemma_add_mod_noop_right(c2v, g * xv * rv, p);
    lemma_mod_twice(c1v + g * rv, p);
    lemma_mod_twice(c2v + g * xv * rv, p);
    // rr.c1.value() == (c1v + g*rv) % p ; rr.c2.value() == (c2v + g*xv*rv) % p
    lemma_mul_mod_noop_left(c1v + g * rv, xv, p);
    lemma_mod_sub_is_mod(rr.c2.value(), mod_mul(rr.c1.value(), x.value()));
    lemma_sub_mod_noop(c2v + g * xv * rv, (c1v + g * rv) * xv, p);
    lemma_mod_twice((c1v + g * rv) * xv, p);
    assert((c2v + g * xv * rv) - (c1v + g * rv) * xv == c2v - c1v * xv) by (nonlinear_arith);
    // the original decryption in the same normal form
    lemma_mod_sub_is_mod(ct.c2.value(), mod_mul(ct.c1.value(), x.value()));
    lemma_sub_mod_noop(c2v, c1v * xv, p);
    lemma_mod_twice(c1v * xv, p);
    lemma_mod_twice(c2v, p);
    assert(spec_decrypt(rr, x.value()) as int == (c2v - c1v * xv) % p);
    assert(spec_decrypt(ct, x.value()) as int == (c2v - c1v * xv) % p);
}

/// Law: authenticated decryption of an honestly constructed ciphertext under
/// the matching secret returns the original plaintext.
pub proof fn lemma_auth_complete(act: AuthCiphertext, y: CurveElem, m: CurveElem, r: Scalar, x: Scalar)
    ensures
        (m.reduced() && y.value() == g_pow(x.value()) && act.contents == spec_encrypt(y, m, r)
            && act.hash@ == plain_tag(m)) ==> spec_auth_decrypt(act, x.value()) == Some(m),
{
    if m.reduced() && y.value() == g_pow(x.value()) && act.contents == spec_encrypt(y, m, r)
        && act.hash@ == plain_tag(m) {
        lemma_encrypt_decrypt(y, m, r, x);
    }
}

/// Law: a ciphertext whose stored tag is not the digest of what it now
/// decrypts to is rejected, even though raw decryption still yields the new
/// element. (Two distinct plaintexts whose digests collide are outside this
/// statement.)
pub proof fn lemma_auth_tamper_rejected(act: AuthCiphertext, x: Scalar, m_new: CurveElem)
    ensures
        (m_new == canon(spec_decrypt(act.contents, x.value())) && act.hash@ != plain_tag(m_new))
            ==> spec_auth_decrypt(act, x.value()) is None,
{
}

} // verus!

//! Three sigma-protocol proofs made non-interactive with the Fiat-Shamir
//! transform: knowledge of encryption randomness, equality of discrete
//! logarithms, and correctness of decryption. Each proof is an immutable
//! transcript: statement, commitments, and one response scalar; `verify`
//! recomputes the challenge from the transcript and checks every equation.

use vstd::arithmetic::div_mod::*;
use vstd::prelude::*;

use crate::CryptoError;
use crate::elgamal::Ciphertext;
use crate::elgamal::CryptoContext;
use crate::elgamal::ct_text;
use crate::encoding::b64_of;
use crate::group::CurveElem;
use crate::group::GENERATOR_VALUE;
use crate::group::GROUP_ORDER;
use crate::group::Scalar;
use crate::group::g_pow;
use crate::group::lemma_canon_value;
use crate::group::lemma_response_equation;
use crate::group::lemma_scale_tamper;
use crate::group::mod_add;
use crate::group::mod_mul;
use crate::group::order;
use crate::hashing::Hasher;
use crate::hashing::scalar_of_digest;
use crate::hashing::sha256_of;

verus! {

/// The ASCII bytes of the domain tag "KNOW_PLAINTEXT".
pub open spec fn know_plaintext_tag() -> Seq<u8> {
    seq![75u8, 78, 79, 87, 95, 80, 76, 65, 73, 78, 84, 69, 88, 84]
}

/// The ASCII bytes of the domain tag "EQ_DLOGS".
pub open spec fn eq_dlogs_tag() -> Seq<u8> {
    seq![69u8, 81, 95, 68, 76, 79, 71, 83]
}

/// The ASCII bytes of the domain tag "DECRYPTION".
pub open spec fn decryption_tag() -> Seq<u8> {
    seq![68u8, 69, 67, 82, 89, 80, 84, 73, 79, 78]
}

fn know_plaintext_tag_bytes() -> (v: Vec<u8>)
    ensures
        v@ == know_plaintext_tag(),
{
    let v: Vec<u8> = vec![75, 78, 79, 87, 95, 80, 76, 65, 73, 78, 84, 69, 88, 84];
    proof {
        assert(v@ =~= know_plaintext_tag());
    }
    v
}

fn eq_dlogs_tag_bytes() -> (v: Vec<u8>)
    ensures
        v@ == eq_dlogs_tag(),
{
    let v: Vec<u8> = vec![69, 81, 95, 68, 76, 79, 71, 83];
    proof {
        assert(v@ =~= eq_dlogs_tag());
    }
    v
}

fn decryption_tag_bytes() -> (v: Vec<u8>)
    ensures
        v@ == decryption_tag(),
{
    let v: Vec<u8> = vec![68, 69, 67, 82, 89, 80, 84, 73, 79, 78];
    proof {
        assert(v@ =~= decryption_tag());
    }
    v
}

/// A proof of knowledge of the randomness behind `ct.c1 = g^r`.
#[derive(Clone, PartialEq, Eq, Debug, Structural)]
pub struct PrfKnowPlaintext {
    pub g: CurveElem,
    pub ct: Ciphertext,
    pub blinded_g: CurveElem,
    pub r: Scalar,
}

/// The Fiat-Shamir challenge of a knowledge-of-plaintext transcript.
pub open spec fn know_plaintext_challenge(g: CurveElem, ct: Ciphertext, blinded_g: CurveElem) -> nat {
    scalar_of_digest(
        sha256_of(
            g.bytes() + ct.c1.bytes() + ct.c2.bytes() + blinded_g.bytes() + know_plaintext_tag(),
        ),
    )
}

/// The commitment-response shape of every transcript the prover emits,
/// honest statement or not: some drawn scalar `z` blinds the base, and the
/// response is `z + c*w` for the witness `w` handed in.
pub open spec fn know_plaintext_commit_ok(p: PrfKnowPlaintext, w: Scalar) -> bool {
    exists|z: nat|
        z < order() && p.blinded_g.value() == mod_mul(p.g.value(), z) && p.r.value() == mod_add(
            z,
            mod_mul(know_plaintext_challenge(p.g, p.ct, p.blinded_g), w.value()),
        )
}

/// The verification equation: `g^r == blinded_g * c1^c` for the recomputed
/// challenge `c`.
pub open spec fn know_plaintext_verifies(p: PrfKnowPlaintext) -> bool {
    mod_mul(p.g.value(), p.r.value()) == mod_add(
        p.blinded_g.value(),
        mod_mul(p.ct.c1.value(), know_plaintext_challenge(p.g, p.ct, p.blinded_g)),
    )
}

impl PrfKnowPlaintext {
    fn challenge(g: &CurveElem, ct: &Ciphertext, blinded_g: &CurveElem) -> (c: Scalar)
        ensures
            c.value() == know_plaintext_challenge(*g, *ct, *blinded_g),
            c.reduced(),
    {
        let tag = know_plaintext_tag_bytes();
        let h = Hasher::sha_256().and_update(&g.as_bytes()).and_update(
            &ct.c1.as_bytes(),
        ).and_update(&ct.c2.as_bytes()).and_update(&blinded_g.as_bytes()).and_update(&tag);
        proof {
            assert(h.data@ =~= g.bytes() + ct.c1.bytes() + ct.c2.bytes() + blinded_g.bytes()
                + know_plaintext_tag());
        }
        h.finish_scalar()
    }

    /// Proves knowledge of the randomness `r` behind `ct.c1 = g^r`. Law: if
    /// `ct.c1` really is `g^r`, the produced transcript verifies.
    pub fn new(ctx: &CryptoContext, ct: Ciphertext, r: Scalar) -> (res: Result<Self, CryptoError>)
        ensures
            res matches Ok(p) ==> p.ct == ct && p.g == CurveElem(GENERATOR_VALUE) && (ct.c1.value()
                == g_pow(r.value()) ==> know_plaintext_verifies(p)),
            res matches Ok(p) ==> know_plaintext_commit_ok(p, r),
            res is Err ==> res == Err::<PrfKnowPlaintext, CryptoError>(
                CryptoError::RandomnessUnavailable,
            ),
    {
        let g = ctx.generator();
        let z = match ctx.random_scalar() {
            Ok(z) => z,
            Err(e) => {
                return Err(e);
            },
        };
        let blinded_g = g.scaled(&z);
        let c = Self::challenge(&g, &ct, &blinded_g);
        let resp = z.add(&c.mul(&r));
        proof {
            lemma_small_mod(GENERATOR_VALUE as nat, order());
            lemma_canon_value(mod_mul(g.value(), z.value()));
            lemma_mod_twice((g.value() * z.value()) as int, GROUP_ORDER as int);
            lemma_canon_value(mod_mul(c.value(), r.value()));
            lemma_mod_twice((c.value() * r.value()) as int, GROUP_ORDER as int);
            lemma_canon_value(mod_add(z.value(), mod_mul(c.value(), r.value())));
            lemma_mod_twice(
                (z.value() + mod_mul(c.value(), r.value())) as int,
                GROUP_ORDER as int,
            );
            lemma_response_equation(g.value(), z.value(), c.value(), r.value());
        }
        let p = Self { g, ct, blinded_g, r: resp };
        proof {
            assert(z.value() < order() && p.blinded_g.value() == mod_mul(p.g.value(), z.value())
                && p.r.value() == mod_add(
                z.value(),
                mod_mul(know_plaintext_challenge(p.g, p.ct, p.blinded_g), r.value()),
            ));
        }
        Ok(p)
    }

    /// Recomputes the challenge and checks the verification equation.
    pub fn verify(&self) -> (res: bool)
        ensures
            res == know_plaintext_verifies(*self),
    {
        let c = Self::challenge(&self.g, &self.ct, &self.blinded_g);
        let lhs = self.g.scaled(&self.r);
        let rhs = self.blinded_g + self.ct.c1.scaled(&c);
        proof {
            lemma_canon_value(mod_mul(self.g.value(), self.r.value()));
            lemma_mod_twice((self.g.value() * self.r.value()) as int, GROUP_ORDER as int);
            lemma_canon_value(mod_mul(self.ct.c1.value(), c.value()));
            lemma_mod_twice((self.ct.c1.value() * c.value()) as int, GROUP_ORDER as int);
            lemma_canon_value(
                mod_add(self.blinded_g.value(), mod_mul(self.ct.c1.value(), c.value())),
            );
            lemma_mod_twice(
                (self.blinded_g.value() + mod_mul(self.ct.c1.value(), c.value())) as int,
                GROUP_ORDER as int,
            );
        }
        lhs == rhs
    }

    /// The transcript as text: every public field in declared order, colon
    /// joined.
    pub fn to_string(&self) -> (r: String)
        ensures
            r@ == b64_of(self.g.bytes()) + seq![':'] + ct_text(self.ct) + seq![':'] + b64_of(
                self.blinded_g.bytes(),
            ) + seq![':'] + b64_of(self.r.bytes()),
    {
        let mut s = self.g.as_base64();
        s.append(":");
        let ct_s = self.ct.to_string();
        s.append(ct_s.as_str());
        s.append(":");
        let b = self.blinded_g.as_base64();
        s.append(b.as_str());
        s.append(":");
        let resp = self.r.as_base64();
        s.append(resp.as_str());
        proof {
            reveal_strlit(":");
            assert(":"@ =~= seq![':']);
            assert(s@ =~= b64_of(self.g.bytes()) + seq![':'] + ct_text(self.ct) + seq![':']
                + b64_of(self.blinded_g.bytes()) + seq![':'] + b64_of(self.r.bytes()));
        }
        s
    }
}

/// Law: a verifying knowledge-of-plaintext transcript whose response scalar
/// is bumped by one, everything else unchanged, no longer verifies.
pub proof fn lemma_know_plaintext_tamper(p: PrfKnowPlaintext, q: PrfKnowPlaintext)
    ensures
        (know_plaintext_verifies(p) && p.g == CurveElem(GENERATOR_VALUE) && q.g == p.g && q.ct
            == p.ct && q.blinded_g == p.blinded_g && q.r.value() == mod_add(p.r.value(), 1))
            ==> !know_plaintext_verifies(q),
{
    if know_plaintext_verifies(p) && p.g == CurveElem(GENERATOR_VALUE) && q.g == p.g && q.ct == p.ct
        && q.blinded_g == p.blinded_g && q.r.value() == mod_add(p.r.value(), 1) {
        lemma_small_mod(GENERATOR_VALUE as nat, order());
        lemma_scale_tamper(p.g.value(), p.r.value(), q.r.value());
    }
}

/// A proof that `result1 = base1^x` and `result2 = base2^x` for one shared
/// secret exponent `x`: a single commitment scalar blinds both bases, which
/// is what ties the two discrete logarithms together.
#[derive(Clone, PartialEq, Eq, Debug, Structural)]
pub struct PrfEqDlogs {
    pub result1: CurveElem,
    pub base1: CurveElem,
    pub result2: CurveElem,
    pub base2: CurveElem,
    pub blinded_base1: CurveElem,
    pub blinded_base2: CurveElem,
    pub r: Scalar,
}

/// The Fiat-Shamir challenge of an equal-discrete-logs transcript.
pub open spec fn eq_dlogs_challenge(
    f: CurveElem,
    h: CurveElem,
    v: CurveElem,
    w: CurveElem,
    a: CurveElem,
    b: CurveElem,
) -> nat {
    scalar_of_digest(
        sha256_of(
            f.bytes() + h.bytes() + v.bytes() + w.bytes() + a.bytes() + b.bytes() + eq_dlogs_tag(),
        ),
    )
}

/// The commitment-response shape of every transcript the prover emits: ONE
/// shared drawn scalar `z` blinds both bases (which is what ties the two
/// discrete logarithms together), and the response is `z + c*w` for the
/// witness `w` handed in.
pub open spec fn eq_dlogs_commit_ok(p: PrfEqDlogs, w: Scalar) -> bool {
    exists|z: nat|
        z < order() && p.blinded_base1.value() == mod_mul(p.base1.value(), z)
            && p.blinded_base2.value() == mod_mul(p.base2.value(), z) && p.r.value() == mod_add(
            z,
            mod_mul(
                eq_dlogs_challenge(
                    p.base1,
                    p.base2,
                    p.result1,
                    p.result2,
                    p.blinded_base1,
                    p.blinded_base2,
                ),
                w.value(),
            ),
        )
}

/// Both verification equations, under the recomputed challenge:
/// `base1^r == blinded_base1 * result1^c` and likewise for the second pair.
pub open spec fn eq_dlogs_verifies(p: PrfEqDlogs) -> bool {
    let c = eq_dlogs_challenge(
        p.base1,
        p.base2,
        p.result1,
        p.result2,
        p.blinded_base1,
        p.blinded_base2,
    );
    &&& mod_mul(p.base1.value(), p.r.value()) == mod_add(
        p.blinded_base1.value(),
        mod_mul(p.result1.value(), c),
    )
    &&& mod_mul(p.base2.value(), p.r.value()) == mod_add(
        p.blinded_base2.value(),
        mod_mul(p.result2.value(), c),
    )
}

impl PrfEqDlogs {
    fn challenge(
        f: &CurveElem,
        h: &CurveElem,
        v: &CurveElem,
        w: &CurveElem,
        a: &CurveElem,
        b: &CurveElem,
    ) -> (c: Scalar)
        ensures
            c.value() == eq_dlogs_challenge(*f, *h, *v, *w, *a, *b),
            c.reduced(),
    {
        let tag = eq_dlogs_tag_bytes();
        let hash = Hasher::sha_256().and_update(&f.as_bytes()).and_update(
            &h.as_bytes(),
        ).and_update(&v.as_bytes()).and_update(&w.as_bytes()).and_update(&a.as_bytes()).and_update(
            &b.as_bytes(),
        ).and_update(&tag);
        proof {
            assert(hash.data@ =~= f.bytes() + h.bytes() + v.bytes() + w.bytes() + a.bytes()
                + b.bytes() + eq_dlogs_tag());
        }
        hash.finish_scalar()
    }

    /// Proves that `result1 = base1^power` and `result2 = base2^power`, that
    /// is, that one secret exponent relates both pairs. Law: if both
    /// equations really hold of `power`, the produced transcript verifies.
    pub fn new(
        ctx: &CryptoContext,
        base1: &CurveElem,
        base2: &CurveElem,
        result1: &CurveElem,
        result2: &CurveElem,
        power: &Scalar,
    ) -> (res: Result<Self, CryptoError>)
        ensures
            res matches Ok(p) ==> p.base1 == *base1 && p.base2 == *base2 && p.result1 == *result1
                && p.result2 == *result2 && ((result1.value() == mod_mul(
                base1.value(),
                power.value(),
            ) && result2.value() == mod_mul(base2.value(), power.value()))
                ==> eq_dlogs_verifies(p)),
            res matches Ok(p) ==> eq_dlogs_commit_ok(p, *power),
            res is Err ==> res == Err::<PrfEqDlogs, CryptoError>(
                CryptoError::RandomnessUnavailable,
            ),
    {
        let z = match ctx.random_scalar() {
            Ok(z) => z,
            Err(e) => {
                return Err(e);
            },
        };
        let blinded_base1 = base1.scaled(&z);
        let blinded_base2 = base2.scaled(&z);
        let c = Self::challenge(base1, base2, result1, result2, &blinded_base1, &blinded_base2);
        let resp = z.add(&c.mul(power));
        proof {
            lemma_canon_value(mod_mul(base1.value(), z.value()));
            lemma_mod_twice((base1.value() * z.value()) as int, GROUP_ORDER as int);
            lemma_canon_value(mod_mul(base2.value(), z.value()));
            lemma_mod_twice((base2.value() * z.value()) as int, GROUP_ORDER as int);
            lemma_canon_value(mod_mul(c.value(), power.value()));
            lemma_mod_twice((c.value() * power.value()) as int, GROUP_ORDER as int);
            lemma_canon_value(mod_add(z.value(), mod_mul(c.value(), power.value())));
            lemma_mod_twice(
                (z.value() + mod_mul(c.value(), power.value())) as int,
                GROUP_ORDER as int,
            );
            lemma_response_equation(base1.value(), z.value(), c.value(), power.value());
            lemma_response_equation(base2.value(), z.value(), c.value(), power.value());
        }
        let p = Self {
            result1: *result1,
            base1: *base1,
            result2: *result2,
            base2: *base2,
            blinded_base1,
            blinded_base2,
            r: resp,
        };
        proof {
            assert(z.value() < order() && p.blinded_base1.value() == mod_mul(
                p.base1.value(),
                z.value(),
            ) && p.blinded_base2.value() == mod_mul(p.base2.value(), z.value()) && p.r.value()
                == mod_add(
                z.value(),
                mod_mul(
                    eq_dlogs_challenge(
                        p.base1,
                        p.base2,
                        p.result1,
                        p.result2,
                        p.blinded_base1,
                        p.blinded_base2,
                    ),
                    power.value(),
                ),
            ));
        }
        Ok(p)
    }

    /// Recomputes the challenge and checks both verification equations.
    pub fn verify(&self) -> (res: bool)
        ensures
            res == eq_dlogs_verifies(*self),
    {
        let c = Self::challenge(
            &self.base1,
            &self.base2,
            &self.result1,
            &self.result2,
            &self.blinded_base1,
            &self.blinded_base2,
        );
        let lhs1 = self.base1.scaled(&self.r);
        let rhs1 = self.blinded_base1 + self.result1.scaled(&c);
        let lhs2 = self.base2.scaled(&self.r);
        let rhs2 = self.blinded_base2 + self.result2.scaled(&c);
        proof {
            lemma_canon_value(mod_mul(self.base1.value(), self.r.value()));
            lemma_mod_twice((self.base1.value() * self.r.value()) as int, GROUP_ORDER as int);
            lemma_canon_value(mod_mul(self.result1.value(), c.value()));
            lemma_mod_twice((self.result1.value() * c.value()) as int, GROUP_ORDER as int);
            lemma_canon_value(
                mod_add(self.blinded_base1.value(), mod_mul(self.result1.value(), c.value())),
            );
            lemma_mod_twice(
                (self.blinded_base1.value() + mod_mul(self.result1.value(), c.value())) as int,
                GROUP_ORDER as int,
            );
            lemma_canon_value(mod_mul(self.base2.value(), self.r.value()));
            lemma_mod_twice((self.base2.value() * self.r.value()) as int, GROUP_ORDER as int);
            lemma_canon_value(mod_mul(self.result2.value(), c.value()));
            lemma_mod_twice((self.result2.value() * c.value()) as int, GROUP_ORDER as int);
            lemma_canon_value(
                mod_add(self.blinded_base2.value(), mod_mul(self.result2.value(), c.value())),
            );
            lemma_mod_twice(
                (self.blinded_base2.value() + mod_mul(self.result2.value(), c.value())) as int,
                GROUP_ORDER as int,
            );
        }
        lhs1 == rhs1 && lhs2 == rhs2
    }

    /// The transcript as text: every public field in declared order, colon
    /// joined.
    pub fn to_string(&self) -> (r: String)
        ensures
            r@ == b64_of(self.result1.bytes()) + seq![':'] + b64_of(self.base1.bytes()) + seq![':']
                + b64_of(self.result2.bytes()) + seq![':'] + b64_of(self.base2.bytes()) + seq![':']
                + b64_of(self.blinded_base1.bytes()) + seq![':'] + b64_of(self.blinded_base2.bytes())
                + seq![':'] + b64_of(self.r.bytes()),
    {
        let mut s = self.result1.as_base64();
        s.append(":");
        let p1 = self.base1.as_base64();
        s.append(p1.as_str());
        s.append(":");
        let p2 = self.result2.as_base64();
        s.append(p2.as_str());
        s.append(":");
        let p3 = self.base2.as_base64();
        s.append(p3.as_str());
        s.append(":");
        let p4 = self.blinded_base1.as_base64();
        s.append(p4.as_str());
        s.append(":");
        let p5 = self.blinded_base2.as_base64();
        s.append(p5.as_str());
        s.append(":");
        let p6 = self.r.as_base64();
        s.append(p6.as_str());
        proof {
            reveal_strlit(":");
            assert(":"@ =~= seq![':']);
            assert(s@ =~= b64_of(self.result1.bytes()) + seq![':'] + b64_of(self.base1.bytes())
                + seq![':'] + b64_of(self.result2.bytes()) + seq![':'] + b64_of(self.base2.bytes())
                + seq![':'] + b64_of(self.blinded_base1.bytes()) + seq![':'] + b64_of(
                self.blinded_base2.bytes(),
            ) + seq![':'] + b64_of(self.r.bytes()));
        }
        s
    }
}

/// Law: a verifying equal-discrete-logs transcript whose response scalar is
/// bumped by one, everything else unchanged, no longer verifies — provided at
/// least one base is not the identity (blinding by the identity detects
/// nothing).
pub proof fn lemma_eq_dlogs_tamper(p: PrfEqDlogs, q: PrfEqDlogs)
    ensures
        (eq_dlogs_verifies(p) && (p.base1.value() != 0 || p.base2.value() != 0) && q.base1
            == p.base1 && q.base2 == p.base2 && q.result1 == p.result1 && q.result2 == p.result2
            && q.blinded_base1 == p.blinded_base1 && q.blinded_base2 == p.blinded_base2
            && q.r.value() == mod_add(p.r.value(), 1)) ==> !eq_dlogs_verifies(q),
{
    if eq_dlogs_verifies(p) && (p.base1.value() != 0 || p.base2.value() != 0) && q.base1 == p.base1
        && q.base2 == p.base2 && q.result1 == p.result1 && q.result2 == p.result2
        && q.blinded_base1 == p.blinded_base1 && q.blinded_base2 == p.blinded_base2 && q.r.value()
        == mod_add(p.r.value(), 1) {
        if p.base1.value() != 0 {
            lemma_small_mod(p.base1.value(), order());
            lemma_scale_tamper(p.base1.value(), p.r.value(), q.r.value());
        } else {
            lemma_small_mod(p.base2.value(), order());
            lemma_scale_tamper(p.base2.value(), p.r.value(), q.r.value());
        }
    }
}

/// A proof that a decryption factor `dec_factor = c1^x` was derived from the
/// same secret `x` behind the public key `g^x`: the building block of
/// verifiable decryption.
#[derive(Clone, PartialEq, Eq, Debug, Structural)]
pub struct PrfDecryption {
    pub g: CurveElem,
    pub ct: Ciphertext,
    pub public_key: CurveElem,
    pub dec_factor: CurveElem,
    pub blinded_g: CurveElem,
    pub blinded_c1: CurveElem,
    pub r: Scalar,
}

/// The Fiat-Shamir challenge of a decryption transcript.
pub open spec fn decryption_challenge(
    g: CurveElem,
    ct: Ciphertext,
    dec_factor: CurveElem,
    public_key: CurveElem,
) -> nat {
    scalar_of_digest(
        sha256_of(
            g.bytes() + ct.c1.bytes() + ct.c2.bytes() + dec_factor.bytes() + public_key.bytes()
                + decryption_tag(),
        ),
    )
}

/// The commitment-response shape of every transcript the prover emits: one
/// drawn scalar `z` blinds both the generator and `c1`, and the response is
/// `z + c*w` for the witness `w` handed in.
pub open spec fn decryption_commit_ok(p: PrfDecryption, w: Scalar) -> bool {
    exists|z: nat|
        z < order() && p.blinded_g.value() == mod_mul(p.g.value(), z) && p.blinded_c1.value()
            == mod_mul(p.ct.c1.value(), z) && p.r.value() == mod_add(
            z,
            mod_mul(decryption_challenge(p.g, p.ct, p.dec_factor, p.public_key), w.value()),
        )
}

/// Both verification equations, under the recomputed challenge:
/// `g^r == blinded_g * public_key^c` and `c1^r == blinded_c1 * dec_factor^c`.
pub open spec fn decryption_verifies(p: PrfDecryption) -> bool {
    let c = decryption_challenge(p.g, p.ct, p.dec_factor, p.public_key);
    &&& mod_mul(p.g.value(), p.r.value()) == mod_add(
        p.blinded_g.value(),
        mod_mul(p.public_key.value(), c),
    )
    &&& mod_mul(p.ct.c1.value(), p.r.value()) == mod_add(
        p.blinded_c1.value(),
        mod_mul(p.dec_factor.value(), c),
    )
}

impl PrfDecryption {
    fn challenge(
        g: &CurveElem,
        ct: &Ciphertext,
        dec_factor: &CurveElem,
        public_key: &CurveElem,
    ) -> (c: Scalar)
        ensures
            c.value() == decryption_challenge(*g, *ct, *dec_factor, *public_key),
            c.reduced(),
    {
        let tag = decryption_tag_bytes();
        let hash = Hasher::sha_256().and_update(&g.as_bytes()).and_update(
            &ct.c1.as_bytes(),
        ).and_update(&ct.c2.as_bytes()).and_update(&dec_factor.as_bytes()).and_update(
            &public_key.as_bytes(),
        ).and_update(&tag);
        proof {
            assert(hash.data@ =~= g.bytes() + ct.c1.bytes() + ct.c2.bytes() + dec_factor.bytes()
                + public_key.bytes() + decryption_tag());
        }
        hash.finish_scalar()
    }

    /// Proves that `dec_factor` was honestly derived from the secret behind
    /// `public_key`. Law: if `public_key = g^secret` and
    /// `dec_factor = c1^secret`, the produced transcript verifies.
    pub fn new(
        ctx: &CryptoContext,
        ct: Ciphertext,
        dec_factor: CurveElem,
        secret: Scalar,
        public_key: CurveElem,
    ) -> (res: Result<Self, CryptoError>)
        ensures
            res matches Ok(p) ==> p.g == CurveElem(GENERATOR_VALUE) && p.ct == ct && p.public_key
                == public_key && p.dec_factor == dec_factor && ((public_key.value() == g_pow(
                secret.value(),
            ) && dec_factor.value() == mod_mul(ct.c1.value(), secret.value()))
                ==> decryption_verifies(p)),
            res matches Ok(p) ==> decryption_commit_ok(p, secret),
            res is Err ==> res == Err::<PrfDecryption, CryptoError>(
                CryptoError::RandomnessUnavailable,
            ),
    {
        let g = ctx.generator();
        let z = match ctx.random_scalar() {
            Ok(z) => z,
            Err(e) => {
                return Err(e);
            },
        };
        let blinded_g = g.scaled(&z);
        let blinded_c1 = ct.c1.scaled(&z);
        let c = Self::challenge(&g, &ct, &dec_factor, &public_key);
        let resp = z.add(&c.mul(&secret));
        proof {
            lemma_small_mod(GENERATOR_VALUE as nat, order());
            lemma_canon_value(mod_mul(g.value(), z.value()));
            lemma_mod_twice((g.value() * z.value()) as int, GROUP_ORDER as int);
            lemma_canon_value(mod_mul(ct.c1.value(), z.value()));
            lemma_mod_twice((ct.c1.value() * z.value()) as int, GROUP_ORDER as int);
            lemma_canon_value(mod_mul(c.value(), secret.value()));
            lemma_mod_twice((c.value() * secret.value()) as int, GROUP_ORDER as int);
            lemma_canon_value(mod_add(z.value(), mod_mul(c.value(), secret.value())));
            lemma_mod_twice(
                (z.value() + mod_mul(c.value(), secret.value())) as int,
                GROUP_ORDER as int,
            );
            lemma_response_equation(g.value(), z.value(), c.value(), secret.value());
            lemma_response_equation(ct.c1.value(), z.value(), c.value(), secret.value());
        }
        let p = Self { g, ct, public_key, dec_factor, blinded_g, blinded_c1, r: resp };
        proof {
            assert(z.value() < order() && p.blinded_g.value() == mod_mul(p.g.value(), z.value())
                && p.blinded_c1.value() == mod_mul(p.ct.c1.value(), z.value()) && p.r.value()
                == mod_add(
                z.value(),
                mod_mul(decryption_challenge(p.g, p.ct, p.dec_factor, p.public_key), secret.value()),
            ));
        }
        Ok(p)
    }

    /// Recomputes the challenge and checks both verification equations.
    pub fn verify(&self) -> (res: bool)
        ensures
            res == decryption_verifies(*self),
    {
        let c = Self::challenge(&self.g, &self.ct, &self.dec_factor, &self.public_key);
        let lhs1 = self.g.scaled(&self.r);
        let rhs1 = self.blinded_g + self.public_key.scaled(&c);
        let lhs2 = self.ct.c1.scaled(&self.r);
        let rhs2 = self.blinded_c1 + self.dec_factor.scaled(&c);
        proof {
            lemma_canon_value(mod_mul(self.g.value(), self.r.value()));
            lemma_mod_twice((self.g.value() * self.r.value()) as int, GROUP_ORDER as int);
            lemma_canon_value(mod_mul(self.public_key.value(), c.value()));
            lemma_mod_twice((self.public_key.value() * c.value()) as int, GROUP_ORDER as int);
            lemma_canon_value(
                mod_add(self.blinded_g.value(), mod_mul(self.public_key.value(), c.value())),
            );
            lemma_mod_twice(
                (self.blinded_g.value() + mod_mul(self.public_key.value(), c.value())) as int,
                GROUP_ORDER as int,
            );
            lemma_canon_value(mod_mul(self.ct.c1.value(), self.r.value()));
            lemma_mod_twice((self.ct.c1.value() * self.r.value()) as int, GROUP_ORDER as int);
            lemma_canon_value(mod_mul(self.dec_factor.value(), c.value()));
            lemma_mod_twice((self.dec_factor.value() * c.value()) as int, GROUP_ORDER as int);
            lemma_canon_value(
                mod_add(self.blinded_c1.value(), mod_mul(self.dec_factor.value(), c.value())),
            );
            lemma_mod_twice(
                (self.blinded_c1.value() + mod_mul(self.dec_factor.value(), c.value())) as int,
                GROUP_ORDER as int,
            );
        }
        lhs1 == rhs1 && lhs2 == rhs2
    }
}

/// Law: a verifying decryption transcript whose response scalar is bumped by
/// one, everything else unchanged, no longer verifies.
pub proof fn lemma_decryption_tamper(p: PrfDecryption, q: PrfDecryption)
    ensures
        (decryption_verifies(p) && p.g == CurveElem(GENERATOR_VALUE) && q.g == p.g && q.ct == p.ct
            && q.public_key == p.public_key && q.dec_factor == p.dec_factor && q.blinded_g
            == p.blinded_g && q.blinded_c1 == p.blinded_c1 && q.r.value() == mod_add(
            p.r.value(),
            1,
        )) ==> !decryption_verifies(q),
{
    if decryption_verifies(p) && p.g == CurveElem(GENERATOR_VALUE) && q.g == p.g && q.ct == p.ct
        && q.public_key == p.public_key && q.dec_factor == p.dec_factor && q.blinded_g
        == p.blinded_g && q.blinded_c1 == p.blinded_c1 && q.r.value() == mod_add(p.r.value(), 1) {
        lemma_small_mod(GENERATOR_VALUE as nat, order());
        lemma_scale_tamper(p.g.value(), p.r.value(), q.r.value());
    }
}

} // verus!

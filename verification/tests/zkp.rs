use cryptid::elgamal::CryptoContext;
use cryptid::elgamal::PublicKey;
use cryptid::zkp::PrfDecryption;
use cryptid::zkp::PrfEqDlogs;
use cryptid::zkp::PrfKnowPlaintext;
use cryptid::Scalar;

#[test]
fn test_exp_sum() {
    let ctx = CryptoContext::new();
    let a = ctx.random_scalar().unwrap();
    let b = ctx.random_scalar().unwrap();
    let r = Scalar(a.0 + b.0);

    let x = ctx.g_to(&r);
    let y = ctx.g_to(&a) + ctx.g_to(&b);
    assert_eq!(x, y);
}

#[test]
fn test_prf_know_plaintext_complete() {
    let ctx = CryptoContext::new();
    let x = ctx.random_scalar().unwrap();
    let pk = PublicKey::new(ctx.g_to(&x));

    let m = ctx.random_elem().unwrap();
    let r = ctx.random_scalar().unwrap();
    let enc = pk.encrypt(&ctx, &m, &r);

    let prf = PrfKnowPlaintext::new(&ctx, enc, r).unwrap();
    assert!(prf.verify());
}

#[test]
fn test_prf_know_plaintext_sound() {
    let ctx = CryptoContext::new();
    let x = ctx.random_scalar().unwrap();
    let pk = PublicKey::new(ctx.g_to(&x));

    let m = ctx.random_elem().unwrap();
    let r = ctx.random_scalar().unwrap();
    let enc = pk.encrypt(&ctx, &m, &r);

    let mut prf = PrfKnowPlaintext::new(&ctx, enc, r).unwrap();
    prf.r.0 += 1;
    assert!(!prf.verify());
}

#[test]
fn test_prf_eq_dlogs_complete() {
    let ctx = CryptoContext::new();
    let x1 = ctx.random_scalar().unwrap();
    let f = ctx.g_to(&x1);
    let x2 = ctx.random_scalar().unwrap();
    let h = ctx.g_to(&x2);

    let x = ctx.random_scalar().unwrap();
    let v = f.scaled(&x);
    let w = h.scaled(&x);

    let prf = PrfEqDlogs::new(&ctx, &f, &h, &v, &w, &x).unwrap();
    assert!(prf.verify());
}

#[test]
fn test_prf_eq_dlogs_sound() {
    let ctx = CryptoContext::new();
    let x1 = ctx.random_scalar().unwrap();
    let f = ctx.g_to(&x1);
    let x2 = ctx.random_scalar().unwrap();
    let h = ctx.g_to(&x2);

    let x = ctx.random_scalar().unwrap();
    let v = f.scaled(&x);
    let w = h.scaled(&x);

    let mut prf = PrfEqDlogs::new(&ctx, &f, &h, &v, &w, &x).unwrap();
    prf.r.0 += 1;

    assert!(!prf.verify());
}

#[test]
fn test_prf_dec_complete() {
    let ctx = CryptoContext::new();
    let x = ctx.random_scalar().unwrap();
    let pk = PublicKey::new(ctx.g_to(&x));

    let m = ctx.random_elem().unwrap();
    let r = ctx.random_scalar().unwrap();
    let enc = pk.encrypt(&ctx, &m, &r);
    let dec = enc.c1.scaled(&x);

    let prf = PrfDecryption::new(&ctx, enc, dec, x, pk.y).unwrap();
    assert!(prf.verify());
}

#[test]
fn test_prf_dec_sound() {
    let ctx = CryptoContext::new();
    let x = ctx.random_scalar().unwrap();
    let pk = PublicKey::new(ctx.g_to(&x));

    let m = ctx.random_elem().unwrap();
    let r = ctx.random_scalar().unwrap();
    let enc = pk.encrypt(&ctx, &m, &r);
    let dec = enc.c1.scaled(&x);

    let mut prf = PrfDecryption::new(&ctx, enc, dec, x, pk.y).unwrap();
    prf.r.0 += 1;

    assert!(!prf.verify());
}

#[test]
fn test_prf_transcripts_to_string() {
    let ctx = CryptoContext::new();
    let x = ctx.random_scalar().unwrap();
    let pk = PublicKey::new(ctx.g_to(&x));

    let m = ctx.random_elem().unwrap();
    let r = ctx.random_scalar().unwrap();
    let enc = pk.encrypt(&ctx, &m, &r);

    // Colon-joined base64 of every public field in declared order: the
    // knowledge proof shows 5 fields (its ciphertext contributes two), the
    // equal-dlogs proof 7.
    let prf = PrfKnowPlaintext::new(&ctx, enc, r).unwrap();
    assert_eq!(prf.to_string().split(':').count(), 5);

    let f = ctx.g_to(&ctx.random_scalar().unwrap());
    let h = ctx.g_to(&ctx.random_scalar().unwrap());
    let v = f.scaled(&x);
    let w = h.scaled(&x);
    let prf2 = PrfEqDlogs::new(&ctx, &f, &h, &v, &w, &x).unwrap();
    assert_eq!(prf2.to_string().split(':').count(), 7);
}

#[test]
fn test_prf_know_plaintext_tampered_statement() {
    // A proof whose challenge was computed over different public fields must
    // not verify: the challenge is recomputed, not trusted.
    let ctx = CryptoContext::new();
    let x = ctx.random_scalar().unwrap();
    let pk = PublicKey::new(ctx.g_to(&x));

    let m = ctx.random_elem().unwrap();
    let r = ctx.random_scalar().unwrap();
    let enc = pk.encrypt(&ctx, &m, &r);
    let other = pk.encrypt(&ctx, &m, &ctx.random_scalar().unwrap());

    let mut prf = PrfKnowPlaintext::new(&ctx, enc, r).unwrap();
    prf.ct = other;
    assert!(!prf.verify());
}

use cryptid::CryptoError;
use cryptid::EncodingError;
use cryptid::elgamal::AuthCiphertext;
use cryptid::elgamal::Ciphertext;
use cryptid::elgamal::CryptoContext;
use cryptid::elgamal::PublicKey;
use cryptid::CurveElem;
use cryptid::Scalar;

#[test]
fn test_pubkey_serde() {
    let mut ctx = CryptoContext::new();
    let x = ctx.random_power().unwrap();
    let y = PublicKey::new(ctx.g_to(&x).into());

    let encoded = y.as_base64();
    let decoded = PublicKey::try_from_base64(encoded.as_str()).unwrap();
    assert_eq!(y, decoded);
}

#[test]
fn test_ciphertext_serde() {
    let mut ctx = CryptoContext::new();
    let x = ctx.random_power().unwrap();
    let y = PublicKey::new(ctx.g_to(&x).into());

    let r = ctx.random_power().unwrap();
    let m = ctx.g_to(&r);

    let r = ctx.random_power().unwrap();

    let ct = y.encrypt(&ctx, &m.into(), &r);

    assert_eq!(ct, Ciphertext::try_from(ct.to_string()).unwrap());
}

#[test]
fn test_homomorphism() {
    let mut ctx = CryptoContext::new();
    let x = ctx.random_power().unwrap();
    let y = PublicKey::new(ctx.g_to(&x).into());

    // Construct two messages
    let r1 = ctx.random_power().unwrap();
    let r2 = ctx.random_power().unwrap();
    let m1 = ctx.g_to(&r1);
    let m2 = ctx.g_to(&r2);

    let r1 = ctx.random_power().unwrap();
    let r2 = ctx.random_power().unwrap();

    // Encrypt the messages
    let ct1 = y.encrypt(&ctx, &m1.into(), &r1);
    let ct2 = y.encrypt(&ctx, &m2.into(), &r2);

    // Compare the added encryption to the added messages
    let prod = ct1.add(&ct2);
    let decryption = prod.decrypt(&x);

    let combined = m1 + m2;

    assert_eq!(combined, decryption);
}

#[test]
fn test_authtag() {
    let mut ctx = CryptoContext::new();
    let x = ctx.random_power().unwrap();
    let y = PublicKey::new(ctx.g_to(&x).into());

    let r = ctx.random_power().unwrap();
    let m = ctx.g_to(&r);
    let m_r = ctx.random_power().unwrap();
    let ct = y.encrypt_auth(&ctx, &m, &m_r);

    assert_eq!(ct.decrypt(&x).unwrap(), m);
}

#[test]
fn test_authtag_fail() {
    let mut ctx = CryptoContext::new();
    let x = ctx.random_power().unwrap();
    let y = PublicKey::new(ctx.g_to(&x).into());

    let r = ctx.random_power().unwrap();
    let m = ctx.g_to(&r);
    let m_r = ctx.random_power().unwrap();
    let ct = y.encrypt_auth(&ctx, &m, &m_r);

    let r = ctx.random_power().unwrap();
    let m_dash = ctx.g_to(&r);
    let ct_modified = Ciphertext {
        c1: ct.contents.c1,
        c2: ct.contents.c2 + m_dash,
    };
    let auth_modified = AuthCiphertext {
        contents: ct_modified.clone(),
        hash: ct.hash.clone(),
    };

    assert!(!auth_modified.verify(&(m + m_dash)));
    assert_eq!(ct_modified.decrypt(&x), m + m_dash);
}

#[test]
fn test_encrypt_exact_values() {
    // With generator 7: y = g^3 = 21, m = g^5 = 35, r = 12345, so
    // c1 = 7 * 12345 = 86415 and c2 = 35 + 21 * 12345 = 259280.
    let ctx = CryptoContext::new();
    let x = Scalar(3);
    let y = PublicKey::new(ctx.g_to(&x));
    assert_eq!(y.y, CurveElem(21));
    let m = ctx.g_to(&Scalar(5));
    assert_eq!(m, CurveElem(35));
    let ct = y.encrypt(&ctx, &m, &Scalar(12345));
    assert_eq!(ct.c1, CurveElem(86415));
    assert_eq!(ct.c2, CurveElem(259280));
    assert_eq!(ct.decrypt(&x), m);
}

#[test]
fn test_rerand_decrypts_to_same() {
    let mut ctx = CryptoContext::new();
    let x = ctx.random_power().unwrap();
    let y = PublicKey::new(ctx.g_to(&x));

    let m = ctx.random_elem().unwrap();
    let r = ctx.random_power().unwrap();
    let ct = y.encrypt(&ctx, &m, &r);

    let r2 = ctx.random_power().unwrap();
    let ct2 = y.rerand(&ctx, &ct, &r2);

    assert_ne!(ct, ct2);
    assert_eq!(ct2.decrypt(&x), m);
}

#[test]
fn test_keypair_roundtrip() {
    let mut ctx = CryptoContext::new();
    let kp = ctx.gen_elgamal_key_pair().unwrap();
    let m = ctx.random_elem().unwrap();
    let r = ctx.random_power().unwrap();
    let ct = kp.pk.encrypt(&ctx, &m, &r);
    assert_eq!(ct.decrypt(&kp.x_i), m);

    // A cloned context shares the generator: encrypting through it agrees.
    let ctx2 = ctx.clone();
    assert_eq!(kp.pk.encrypt(&ctx2, &m, &r), ct);
}

#[test]
fn test_concrete_scenario() {
    // Generate a key pair, encrypt g^5, serialize the ciphertext to text,
    // deserialize, decrypt, and recover g^5 exactly.
    let mut ctx = CryptoContext::new();
    let kp = ctx.gen_elgamal_key_pair().unwrap();
    let m = ctx.g_to(&Scalar(5));
    let r = ctx.random_power().unwrap();

    let ct = kp.pk.encrypt(&ctx, &m, &r);
    let text = ct.to_string();
    let decoded = Ciphertext::try_from(text).unwrap();
    assert_eq!(decoded.decrypt(&kp.x_i), m);
    assert_eq!(decoded.decrypt(&kp.x_i), ctx.g_to(&Scalar(5)));
}

#[test]
fn test_ciphertext_decode_length_error() {
    let a = CurveElem(1).as_base64();
    let three = format!("{}:{}:{}", a, a, a);
    assert_eq!(Ciphertext::try_from(three), Err(EncodingError::Length));
    let one = a.clone();
    assert_eq!(Ciphertext::try_from(one), Err(EncodingError::Length));
}

#[test]
fn test_ciphertext_decode_elem_error() {
    let a = CurveElem(1).as_base64();
    let bad = format!("{}:{}", "?not-base64?", a);
    assert_eq!(Ciphertext::try_from(bad), Err(EncodingError::CurveElem));
    // A malformed element is reported even when the count is also wrong.
    let bad_count = String::from("?not-base64?");
    assert_eq!(Ciphertext::try_from(bad_count), Err(EncodingError::CurveElem));
}

#[test]
fn test_pubkey_decode_invalid() {
    assert_eq!(
        PublicKey::try_from_base64("!!!not base64!!!"),
        Err(CryptoError::InvalidEncoding)
    );
    // Eight bytes denoting a value at or above the group order are rejected.
    let too_big = base64::encode(&u64::MAX.to_le_bytes());
    assert_eq!(
        PublicKey::try_from_base64(too_big.as_str()),
        Err(CryptoError::InvalidEncoding)
    );
    // Wrong byte length is rejected too.
    let short = base64::encode(&[1u8, 2, 3]);
    assert_eq!(
        PublicKey::try_from_base64(short.as_str()),
        Err(CryptoError::InvalidEncoding)
    );
}

#[test]
fn test_elem_base64_exact() {
    // 258 = 0x0102 encodes little-endian as 02 01 00 00 00 00 00 00.
    assert_eq!(CurveElem(258).as_base64(), "AgEAAAAAAAA=");
    let decoded = cryptid::CurveElem::try_from_base64("AgEAAAAAAAA=").unwrap();
    assert_eq!(decoded, CurveElem(258));
}

#[test]
fn test_auth_tag_shape() {
    // The tag is a SHA-512 digest: 64 bytes, and never the plaintext's own
    // eight-byte encoding.
    let ctx = CryptoContext::new();
    let y = PublicKey::new(ctx.g_to(&Scalar(3)));
    let ct = y.encrypt_auth(&ctx, &CurveElem(35), &Scalar(7));
    assert_eq!(ct.hash.len(), 64);
    let other = y.encrypt_auth(&ctx, &CurveElem(36), &Scalar(7));
    assert_ne!(ct.hash, other.hash);
    let shown = ct.to_string();
    assert!(shown.starts_with('('));
    assert!(shown.ends_with(']'));
}

#[test]
fn test_random_draws_are_fresh() {
    let ctx = CryptoContext::new();
    let a = ctx.random_scalar().unwrap();
    let b = ctx.random_scalar().unwrap();
    assert!(a.0 < cryptid::group::GROUP_ORDER);
    assert!(b.0 < cryptid::group::GROUP_ORDER);
    assert_ne!(a.0, b.0);
    let e = ctx.random_elem().unwrap();
    assert!(e.0 < cryptid::group::GROUP_ORDER);
}

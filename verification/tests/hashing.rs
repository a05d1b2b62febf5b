use cryptid::group::GROUP_ORDER;
use cryptid::hashing::Hasher;

#[test]
fn test_sha256_empty_vector() {
    // The SHA-256 digest of the empty input, as standardized.
    let d = Hasher::sha_256().finish();
    let expected: Vec<u8> = vec![
        0xe3, 0xb0, 0xc4, 0x42, 0x98, 0xfc, 0x1c, 0x14, 0x9a, 0xfb, 0xf4, 0xc8, 0x99, 0x6f, 0xb9,
        0x24, 0x27, 0xae, 0x41, 0xe4, 0x64, 0x9b, 0x93, 0x4c, 0xa4, 0x95, 0x99, 0x1b, 0x78, 0x52,
        0xb8, 0x55,
    ];
    assert_eq!(d, expected);
}

#[test]
fn test_sha512_empty_vector() {
    // The SHA-512 digest of the empty input, as standardized.
    let d = Hasher::sha_512().finish();
    let expected: Vec<u8> = vec![
        0xcf, 0x83, 0xe1, 0x35, 0x7e, 0xef, 0xb8, 0xbd, 0xf1, 0x54, 0x28, 0x50, 0xd6, 0x6d, 0x80,
        0x07, 0xd6, 0x20, 0xe4, 0x05, 0x0b, 0x57, 0x15, 0xdc, 0x83, 0xf4, 0xa9, 0x21, 0xd3, 0x6c,
        0xe9, 0xce, 0x47, 0xd0, 0xd1, 0x3c, 0x5d, 0x85, 0xf2, 0xb0, 0xff, 0x83, 0x18, 0xd2, 0x87,
        0x7e, 0xec, 0x2f, 0x63, 0xb9, 0x31, 0xbd, 0x47, 0x41, 0x7a, 0x81, 0xa5, 0x38, 0x32, 0x7a,
        0xf9, 0x27, 0xda, 0x3e,
    ];
    assert_eq!(d, expected);
}

#[test]
fn test_incremental_feeding_is_concatenation() {
    let one = Hasher::sha_256().and_update(&vec![1, 2, 3, 4]).finish();
    let split = Hasher::sha_256().and_update(&vec![1, 2]).and_update(&vec![3, 4]).finish();
    assert_eq!(one, split);
    let other = Hasher::sha_256().and_update(&vec![1, 2, 3, 5]).finish();
    assert_ne!(one, other);
}

#[test]
fn test_finish_scalar_reduces() {
    // The scalar is the first eight digest bytes, little-endian, mod the
    // group order: for the empty input, 0x141cfc9842c4b0e3 reduced.
    let s = Hasher::sha_256().finish_scalar();
    assert_eq!(s.0, 0x141cfc9842c4b0e3u64 % GROUP_ORDER);
    assert!(s.0 < GROUP_ORDER);
}

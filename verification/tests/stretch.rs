use crypto_once::stretch::{self, DerivedKey, ROUNDS};
use pbkdf2::pbkdf2_hmac_array;
use sha2::Sha256;

#[test]
fn rounds_are_six_hundred_thousand() {
    assert_eq!(ROUNDS, 600_000);
}

#[test]
fn derive_gives_the_known_answer() {
    let key = stretch::derive(b"password", b"salt");
    let expected: [u8; 20] = [
        0x66, 0x9c, 0xfe, 0x52, 0x48, 0x21, 0x16, 0xfd, 0xa1, 0xaa, 0x2c, 0xbe, 0x40, 0x9b, 0x2f,
        0x56, 0xc8, 0xe4, 0x56, 0x37,
    ];
    assert_eq!(key[..20], expected[..]);
}

#[test]
fn derive_is_pbkdf2_hmac_sha256() {
    let key = stretch::derive(b"correct horse", b"unsalted");
    let expected = pbkdf2_hmac_array::<Sha256, 32>(b"correct horse", b"unsalted", 600_000);
    assert_eq!(key, expected);
    assert_ne!(key, [0u8; 32]);
}

#[test]
fn derive_is_deterministic() {
    let first = stretch::derive(b"material", b"salt");
    let second = stretch::derive(b"material", b"salt");
    assert_eq!(first, second);
}

#[test]
fn derive_takes_empty_material_and_salt() {
    let key: DerivedKey = stretch::derive(b"", b"");
    assert_eq!(key.len(), 32);
    assert_eq!(key, pbkdf2_hmac_array::<Sha256, 32>(b"", b"", 600_000));
}

#[test]
fn derive_takes_large_material() {
    let material = vec![0xa5u8; 1 << 20];
    let key = stretch::derive(&material, b"unsalted");
    assert_eq!(key.len(), 32);
    assert_eq!(key, pbkdf2_hmac_array::<Sha256, 32>(&material, b"unsalted", 600_000));
}

#[test]
fn derive_depends_on_the_material() {
    assert_ne!(stretch::derive(b"a", b"unsalted"), stretch::derive(b"b", b"unsalted"));
}

#[test]
fn derive_depends_on_the_salt() {
    assert_ne!(stretch::derive(b"a", b"unsalted"), stretch::derive(b"a", b"salted"));
}

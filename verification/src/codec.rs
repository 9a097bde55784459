//! Compression and decompression over the selectable backends.
//!
//! Zstandard streams are produced and consumed by the `zstd` crate behind
//! trusted wrappers.  The gzip-selectable kind wraps a Zstandard stream in a
//! small framed format of this crate's own: a 12-byte marker, the plaintext
//! length in little-endian, then the compressed stream.  `NoCompression`
//! passes bytes through unchanged.  Every successful compression output
//! decodes back to the input under the same kind.

use vstd::prelude::*;

verus! {

use vstd::bytes::spec_u64_to_le_bytes;
use crate::config::CompressionKind;
use crate::error::CodecError;

/// The Zstandard stream that the backend produces for `data` at `level`.
pub uninterp spec fn zstd_enc(data: Seq<u8>, level: int) -> Seq<u8>;

/// What the Zstandard backend decodes `data` to, if it is a valid stream.
pub uninterp spec fn zstd_dec(data: Seq<u8>) -> Option<Seq<u8>>;

/// The 12-byte marker that opens this crate's gzip-kind framing.
pub open spec fn gzip_marker() -> Seq<u8> {
    seq![0x42u8, 0x55u8, 0x54u8, 0x5fu8, 0x47u8, 0x5au8, 0x49u8, 0x50u8, 0x5fu8, 0x56u8, 0x31u8, 0x00u8]
}

/// The framed form that the gzip kind stores: marker, plaintext length in
/// little-endian, then a Zstandard stream at level 1.
pub open spec fn gzip_frame(data: Seq<u8>) -> Seq<u8> {
    gzip_marker() + spec_u64_to_le_bytes(data.len() as u64) + zstd_enc(data, 1)
}

/// What decompression yields for `data` under `kind`, if anything.
pub open spec fn decompress_spec(data: Seq<u8>, kind: CompressionKind) -> Option<Seq<u8>> {
    match kind {
        CompressionKind::Zstd => zstd_dec(data),
        CompressionKind::Gzip => if gzip_marker().is_prefix_of(data) {
            if data.len() >= 20 {
                zstd_dec(data.skip(20))
            } else {
                Option::<Seq<u8>>::None
            }
        } else {
            zstd_dec(data)
        },
        CompressionKind::NoCompression => Some(data),
    }
}

/// What a successful `compress` call returns for `data` under `kind`.
pub open spec fn compress_post(data: Seq<u8>, kind: CompressionKind, level: int, out: Seq<u8>) -> bool {
    match kind {
        CompressionKind::Zstd => out == zstd_enc(data, level) && zstd_dec(out) == Some(data),
        CompressionKind::Gzip => out == gzip_frame(data) && zstd_dec(zstd_enc(data, 1)) == Some(
            data,
        ),
        CompressionKind::NoCompression => out == data,
    }
}

/// Compresses a byte slice using the given Zstandard level.
///
/// Relies on `zstd::Encoder` (`new`, `write_all`, `finish`): single-threaded
/// streaming compression is a deterministic function of the input bytes and
/// the level, and decoding its output returns the input.
#[verifier::external_body]
fn zstd_compress(data: &[u8], level: i32) -> (r: Result<Vec<u8>, CodecError>)
    ensures
        r matches Ok(v) ==> v@ == zstd_enc(data@, level as int) && zstd_dec(v@) == Some(data@),
        r matches Err(e) ==> e == CodecError::CompressionFailed,
{
    let encoder = zstd::Encoder::new(Vec::new(), level);
    let mut encoder = match encoder {
        Ok(e) => e,
        Err(_) => return Err(CodecError::CompressionFailed),
    };
    if std::io::Write::write_all(&mut encoder, data).is_err() {
        return Err(CodecError::CompressionFailed);
    }
    encoder.finish().map_err(|_| CodecError::CompressionFailed)
}

/// Decompresses a Zstandard stream.
///
/// Relies on `zstd::Decoder` (`new`, `read_to_end`): decoding is a
/// deterministic function of the input bytes; malformed input is reported
/// as an error.
#[verifier::external_body]
fn zstd_decompress(data: &[u8]) -> (r: Result<Vec<u8>, CodecError>)
    ensures
        r matches Ok(v) ==> zstd_dec(data@) == Some(v@),
        r matches Err(e) ==> zstd_dec(data@) is None && e == CodecError::DecompressionFailed,
{
    let decoder = zstd::Decoder::new(data);
    let mut decoder = match decoder {
        Ok(d) => d,
        Err(_) => return Err(CodecError::DecompressionFailed),
    };
    let mut out = Vec::new();
    match std::io::Read::read_to_end(&mut decoder, &mut out) {
        Ok(_) => Ok(out),
        Err(_) => Err(CodecError::DecompressionFailed),
    }
}

/// Codec roundtrip: whatever a successful `compress` returns decodes back to
/// the original input under the same kind.
pub proof fn lemma_codec_round_trip(data: Seq<u8>, kind: CompressionKind, level: int, out: Seq<u8>)
    requires
        compress_post(data, kind, level, out),
    ensures
        decompress_spec(out, kind) == Some(data),
{
    match kind {
        CompressionKind::Zstd => {},
        CompressionKind::Gzip => {
            vstd::bytes::lemma_auto_spec_u64_to_from_le_bytes();
            assert(gzip_marker().len() == 12);
            assert(spec_u64_to_le_bytes(data.len() as u64).len() == 8);
            assert(gzip_marker().is_prefix_of(out)) by {
                assert(out.subrange(0, 12) =~= gzip_marker());
            }
            assert(out.len() >= 20);
            assert(out.skip(20) =~= zstd_enc(data, 1));
        },
        CompressionKind::NoCompression => {},
    }
}

/// Compresses a byte slice using the specified algorithm.
///
/// For `NoCompression` the input is returned unchanged and the call always
/// succeeds.  For the other kinds the output is the backend's stream (for
/// gzip, inside this crate's framing), and failure can only come from the
/// compression backend.  Every successful output decompresses back to the
/// input under the same kind.
pub fn compress(data: &[u8], kind: CompressionKind, level: i32) -> (r: Result<Vec<u8>, CodecError>)
    ensures
        r matches Ok(v) ==> compress_post(data@, kind, level as int, v@),
        r matches Ok(v) ==> decompress_spec(v@, kind) == Some(data@),
        r matches Err(e) ==> e == CodecError::CompressionFailed && kind
            != CompressionKind::NoCompression,
{
    let out: Vec<u8> = match kind {
        CompressionKind::Zstd => {
            match zstd_compress(data, level) {
                Ok(v) => v,
                Err(e) => return Err(e),
            }
        },
        CompressionKind::Gzip => {
            let compressed = match zstd_compress(data, 1) {
                Ok(v) => v,
                Err(e) => return Err(e),
            };
            let mut out: Vec<u8> = vec![
                0x42u8, 0x55u8, 0x54u8, 0x5fu8, 0x47u8, 0x5au8, 0x49u8, 0x50u8, 0x5fu8, 0x56u8,
                0x31u8, 0x00u8,
            ];
            assert(out@ =~= gzip_marker());
            let len_bytes = vstd::bytes::u64_to_le_bytes(data.len() as u64);
            out.extend_from_slice(len_bytes.as_slice());
            out.extend_from_slice(compressed.as_slice());
            assert(out@ =~= gzip_frame(data@));
            out
        },
        CompressionKind::NoCompression => vstd::slice::slice_to_vec(data),
    };
    proof {
        lemma_codec_round_trip(data@, kind, level as int, out@);
    }
    Ok(out)
}

/// Decompresses a byte slice using the specified algorithm.
///
/// Returns exactly what `decompress_spec` yields: the decoded bytes when the
/// input is valid for `kind`, and `DecompressionFailed` otherwise.  For
/// `NoCompression` the input is returned unchanged and the call always
/// succeeds.
pub fn decompress(data: &[u8], kind: CompressionKind) -> (r: Result<Vec<u8>, CodecError>)
    ensures
        r matches Ok(v) ==> decompress_spec(data@, kind) == Some(v@),
        r matches Err(e) ==> decompress_spec(data@, kind) is None && e
            == CodecError::DecompressionFailed,
{
    match kind {
        CompressionKind::Zstd => zstd_decompress(data),
        CompressionKind::Gzip => {
            let marker: Vec<u8> = vec![
                0x42u8, 0x55u8, 0x54u8, 0x5fu8, 0x47u8, 0x5au8, 0x49u8, 0x50u8, 0x5fu8, 0x56u8,
                0x31u8, 0x00u8,
            ];
            assert(marker@ =~= gzip_marker());
            if has_byte_prefix(data, &marker) {
                if data.len() < 20 {
                    return Err(CodecError::DecompressionFailed);
                }
                let inner = vstd::slice::slice_subrange(data, 20, data.len());
                zstd_decompress(inner)
            } else {
                zstd_decompress(data)
            }
        },
        CompressionKind::NoCompression => Ok(vstd::slice::slice_to_vec(data)),
    }
}

/// Reports whether `data` begins with the bytes of `prefix`.
fn has_byte_prefix(data: &[u8], prefix: &Vec<u8>) -> (r: bool)
    ensures
        r == prefix@.is_prefix_of(data@),
{
    if prefix.len() > data.len() {
        return false;
    }
    let n = prefix.len();
    let mut i: usize = 0;
    while i < n
        invariant
            0 <= i <= n,
            n == prefix@.len(),
            n <= data@.len(),
            forall|j: int| 0 <= j < i ==> data@[j] == prefix@[j],
        decreases n - i,
    {
        if *vstd::slice::slice_index_get(data, i) != prefix[i] {
            assert(!(prefix@ =~= data@.subrange(0, prefix@.len() as int)));
            return false;
        }
        i = i + 1;
    }
    assert(prefix@ =~= data@.subrange(0, prefix@.len() as int));
    true
}

/// Returns the file extension associated with a compression kind.
pub fn extension(kind: CompressionKind) -> (r: &'static str)
    ensures
        kind == CompressionKind::Zstd ==> r@ == "zst"@,
        kind == CompressionKind::Gzip ==> r@ == "gz"@,
        kind == CompressionKind::NoCompression ==> r@ == "raw"@,
{
    match kind {
        CompressionKind::Zstd => "zst",
        CompressionKind::Gzip => "gz",
        CompressionKind::NoCompression => "raw",
    }
}

} // verus!

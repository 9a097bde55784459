//! The per-blob transformation pipeline.
//!
//! Stored bytes are the plaintext compressed under the snapshot's kind and,
//! when encryption is on, encrypted under the password-derived key.  The
//! content hash is always of the plaintext, so the pipeline is what stands
//! between a blob's identity and its on-disk form.  Encoding and decoding
//! are inverse: whatever `encode_blob` returns, `decode_blob` turns back
//! into the plaintext under the same parameters.

use vstd::prelude::*;

verus! {

use crate::cipher;
use crate::codec;
use crate::config::CompressionKind;
use crate::error::{PipelineError, RestoreError};

/// The view of an optional password.
pub open spec fn pw_view(password: Option<&str>) -> Option<Seq<char>> {
    match password {
        Some(p) => Some(p@),
        None => Option::<Seq<char>>::None,
    }
}

/// The compressed form of `content` under `comp` at `level`.
pub open spec fn compressed_of(content: Seq<u8>, comp: CompressionKind, level: int) -> Seq<u8> {
    match comp {
        CompressionKind::Zstd => codec::zstd_enc(content, level),
        CompressionKind::Gzip => codec::gzip_frame(content),
        CompressionKind::NoCompression => content,
    }
}

/// The length of a freshly stored blob for `content`: the compressed length
/// plus the 28-byte encryption overhead when encryption is on.
pub open spec fn stored_len_of(
    content: Seq<u8>,
    comp: CompressionKind,
    level: int,
    enc: bool,
) -> int {
    if enc {
        compressed_of(content, comp, level).len() as int + 28
    } else {
        compressed_of(content, comp, level).len() as int
    }
}

/// What decoding stored bytes yields under the snapshot's parameters, if
/// anything: decrypt when the snapshot is encrypted (which needs a
/// password), then decompress.
pub open spec fn decode_pipeline(
    stored: Seq<u8>,
    comp: CompressionKind,
    encrypted: bool,
    password: Option<Seq<char>>,
) -> Option<Seq<u8>> {
    if encrypted {
        match password {
            None => Option::<Seq<u8>>::None,
            Some(p) => match cipher::decrypt_spec(stored, p) {
                None => Option::<Seq<u8>>::None,
                Some(c) => codec::decompress_spec(c, comp),
            },
        }
    } else {
        codec::decompress_spec(stored, comp)
    }
}

/// Runs the storage pipeline on plaintext content: compress, then encrypt
/// when a password is given.
///
/// Every successful output has the modeled stored length and decodes back
/// to the content under the same parameters; that is the pipeline
/// roundtrip, completed by the contract of [`decode_blob`].
pub fn encode_blob(
    content: &[u8],
    comp: CompressionKind,
    level: i32,
    password: Option<&str>,
) -> (r: Result<Vec<u8>, PipelineError>)
    ensures
        r matches Ok(v) ==> {
            &&& v@.len() == stored_len_of(content@, comp, level as int, password is Some)
            &&& decode_pipeline(v@, comp, password is Some, pw_view(password)) == Some(content@)
            &&& (password is None ==> v@ == compressed_of(content@, comp, level as int))
        },
        r matches Err(e) ==> (e == PipelineError::Compression || (e == PipelineError::Encryption
            && password is Some)),
        comp == CompressionKind::NoCompression && password is None ==> r is Ok,
{
    let compressed = match codec::compress(content, comp, level) {
        Ok(v) => v,
        Err(_) => return Err(PipelineError::Compression),
    };
    match password {
        Some(p) => {
            match cipher::encrypt(compressed.as_slice(), p) {
                Ok(v) => Ok(v),
                Err(_) => Err(PipelineError::Encryption),
            }
        },
        None => Ok(compressed),
    }
}

/// Runs the restore pipeline on stored bytes: decrypt when the snapshot is
/// encrypted, then decompress.
///
/// Returns exactly what `decode_pipeline` yields.  An encrypted snapshot
/// without a password fails with `PasswordRequired`; a failed
/// authentication with `DecryptionFailed`; a malformed compressed stream
/// with `DecompressionFailed`.
pub fn decode_blob(
    stored: &[u8],
    comp: CompressionKind,
    encrypted: bool,
    password: Option<&str>,
) -> (r: Result<Vec<u8>, RestoreError>)
    ensures
        r matches Ok(v) ==> decode_pipeline(stored@, comp, encrypted, pw_view(password)) == Some(
            v@,
        ),
        r is Err ==> decode_pipeline(stored@, comp, encrypted, pw_view(password)) is None,
        r matches Err(e) ==> e == decode_error_of(stored@, comp, encrypted, pw_view(password)),
{
    let data: Vec<u8> = if encrypted {
        let p = match password {
            Some(p) => p,
            None => return Err(RestoreError::PasswordRequired),
        };
        match cipher::decrypt(stored, p) {
            Ok(v) => v,
            Err(_) => return Err(RestoreError::DecryptionFailed),
        }
    } else {
        vstd::slice::slice_to_vec(stored)
    };
    match codec::decompress(data.as_slice(), comp) {
        Ok(v) => Ok(v),
        Err(_) => Err(RestoreError::DecompressionFailed),
    }
}

/// Which restore error decoding fails with, when it fails.
pub open spec fn decode_error_of(
    stored: Seq<u8>,
    comp: CompressionKind,
    encrypted: bool,
    password: Option<Seq<char>>,
) -> RestoreError {
    if encrypted && password is None {
        RestoreError::PasswordRequired
    } else if encrypted && cipher::decrypt_spec(stored, password->0) is None {
        RestoreError::DecryptionFailed
    } else {
        RestoreError::DecompressionFailed
    }
}

} // verus!

//! Authenticated encryption for backup blobs.
//!
//! AES-256-GCM with a key derived from the password by BLAKE3 keyed hashing
//! under a fixed domain-separation context.  Each encryption draws a fresh
//! random 96-bit nonce; the stored layout is `nonce(12) || ciphertext ||
//! tag(16)`, so every output is at least 28 bytes longer than nothing and
//! exactly 28 bytes longer than its plaintext.  Wrong passwords and
//! corruption are indistinguishable by design: both fail authentication.

use vstd::prelude::*;

use aes_gcm::aead::Aead;
use aes_gcm::aead::Generate;
use aes_gcm::aead::KeyInit;

verus! {

use vstd::string::*;
use crate::error::CryptoError;

/// The 32-byte key that BLAKE3 derives from a context string and material.
pub uninterp spec fn blake3_derived(context: Seq<char>, material: Seq<u8>) -> Seq<u8>;

/// What AES-256-GCM decryption yields for a key, nonce and ciphertext, if
/// authentication succeeds.  Decryption is deterministic in all three.
pub uninterp spec fn aead_dec(key: Seq<u8>, nonce: Seq<u8>, ct: Seq<u8>) -> Option<Seq<u8>>;

/// The fixed key-derivation context; every conforming repository uses it
/// verbatim so that archives are portable.
pub open spec fn key_context() -> Seq<char> {
    "but-next v1 encryption key"@
}

/// The encryption key belonging to a password.
pub open spec fn password_key(password: Seq<char>) -> Seq<u8> {
    blake3_derived(key_context(), vstd::utf8::encode_utf8(password))
}

/// What `decrypt` yields for stored bytes and a password: inputs shorter
/// than the 12-byte nonce fail at once; otherwise the leading 12 bytes are
/// the nonce and the rest is authenticated ciphertext.
pub open spec fn decrypt_spec(data: Seq<u8>, password: Seq<char>) -> Option<Seq<u8>> {
    if data.len() < 12 {
        Option::<Seq<u8>>::None
    } else {
        aead_dec(password_key(password), data.take(12), data.skip(12))
    }
}

/// Derives a 256-bit key from key material under a context string.
///
/// Relies on `blake3::derive_key`: the result is a 32-byte value, a function
/// of the context and the material alone.
#[verifier::external_body]
fn derive_key_bytes(context: &str, material: &[u8]) -> (k: Vec<u8>)
    ensures
        k@ == blake3_derived(context@, material@),
        k@.len() == 32,
{
    blake3::derive_key(context, material).to_vec()
}

/// Encrypts a plaintext under a 32-byte key with a fresh random nonce.
///
/// Relies on `aes_gcm::Aes256Gcm` (`KeyInit::new_from_slice`,
/// `Nonce::generate`, `Aead::encrypt`): the ciphertext is the plaintext's
/// length plus the 16-byte tag, and decrypting it under the same key and
/// nonce returns the plaintext.  Nothing is promised about the nonce's
/// value, which is drawn from the operating system's randomness.
#[verifier::external_body]
fn aead_encrypt(key: &[u8], plaintext: &[u8]) -> (r: Result<(Vec<u8>, Vec<u8>), CryptoError>)
    requires
        key@.len() == 32,
    ensures
        r matches Ok(p) ==> p.0@.len() == 12 && p.1@.len() == plaintext@.len() + 16 && aead_dec(
            key@,
            p.0@,
            p.1@,
        ) == Some(plaintext@),
{
    let cipher = match aes_gcm::Aes256Gcm::new_from_slice(key) {
        Ok(c) => c,
        Err(_) => return Err(CryptoError::InvalidKeyLength),
    };
    let nonce = aes_gcm::Nonce::<aes_gcm::aead::consts::U12>::generate();
    let ciphertext = match cipher.encrypt(&nonce, plaintext) {
        Ok(c) => c,
        Err(_) => return Err(CryptoError::DecryptionFailed),
    };
    Ok((nonce.as_slice().to_vec(), ciphertext))
}

/// Decrypts and authenticates a ciphertext under a 32-byte key and nonce.
///
/// Relies on `aes_gcm::Aes256Gcm` (`KeyInit::new_from_slice`,
/// `Aead::decrypt`): the outcome is a deterministic function of key, nonce
/// and ciphertext; an authentication failure is reported as an error.
#[verifier::external_body]
fn aead_decrypt(key: &[u8], nonce: &[u8], ct: &[u8]) -> (r: Result<Vec<u8>, CryptoError>)
    requires
        key@.len() == 32,
        nonce@.len() == 12,
    ensures
        r matches Ok(v) ==> aead_dec(key@, nonce@, ct@) == Some(v@),
        r is Err ==> aead_dec(key@, nonce@, ct@) is None,
{
    let cipher = match aes_gcm::Aes256Gcm::new_from_slice(key) {
        Ok(c) => c,
        Err(_) => return Err(CryptoError::InvalidKeyLength),
    };
    let nonce = match aes_gcm::Nonce::<aes_gcm::aead::consts::U12>::try_from(nonce) {
        Ok(n) => n,
        Err(_) => return Err(CryptoError::DecryptionFailed),
    };
    match cipher.decrypt(&nonce, ct) {
        Ok(v) => Ok(v),
        Err(_) => Err(CryptoError::DecryptionFailed),
    }
}

/// Encrypts plaintext with a key derived from the password, prepending the
/// fresh nonce to the ciphertext.
///
/// Every successful output is exactly 28 bytes longer than the plaintext and
/// decrypts back to the plaintext under the same password; that is the
/// cipher roundtrip, completed by the contract of [`decrypt`].
pub fn encrypt(plaintext: &[u8], password: &str) -> (r: Result<Vec<u8>, CryptoError>)
    ensures
        r matches Ok(v) ==> v@.len() == plaintext@.len() + 28 && decrypt_spec(v@, password@)
            == Some(plaintext@),
{
    let key = derive_key_bytes("but-next v1 encryption key", password.as_bytes());
    let (mut out, mut ciphertext) = match aead_encrypt(key.as_slice(), plaintext) {
        Ok(p) => p,
        Err(e) => return Err(e),
    };
    let ghost nonce_view = out@;
    let ghost ct_view = ciphertext@;
    out.append(&mut ciphertext);
    proof {
        assert(out@.take(12) =~= nonce_view);
        assert(out@.skip(12) =~= ct_view);
    }
    Ok(out)
}

/// Decrypts data produced by [`encrypt`].
///
/// Splits off the 12-byte nonce, authenticates and decrypts the remainder
/// under the password-derived key.  Succeeds exactly when `decrypt_spec`
/// yields a value: inputs shorter than the nonce, corrupted data and wrong
/// passwords all fail with `DecryptionFailed`.
pub fn decrypt(data: &[u8], password: &str) -> (r: Result<Vec<u8>, CryptoError>)
    ensures
        r matches Ok(v) ==> decrypt_spec(data@, password@) == Some(v@),
        r matches Err(e) ==> decrypt_spec(data@, password@) is None && e
            == CryptoError::DecryptionFailed,
{
    if data.len() < 12 {
        return Err(CryptoError::DecryptionFailed);
    }
    let key = derive_key_bytes("but-next v1 encryption key", password.as_bytes());
    let nonce = vstd::slice::slice_subrange(data, 0, 12);
    let ciphertext = vstd::slice::slice_subrange(data, 12, data.len());
    proof {
        assert(nonce@ =~= data@.take(12));
        assert(ciphertext@ =~= data@.skip(12));
    }
    match aead_decrypt(key.as_slice(), nonce, ciphertext) {
        Ok(v) => Ok(v),
        Err(_) => Err(CryptoError::DecryptionFailed),
    }
}

/// Cipher roundtrip: any bytes that carry a nonce and a ciphertext that
/// authenticates to `x` under the password's key decrypt to exactly `x`;
/// `encrypt` ensures its output is such a value, so decrypting an encryption
/// output under the same password returns the original plaintext.
pub proof fn lemma_cipher_round_trip(x: Seq<u8>, p: Seq<char>, c: Seq<u8>)
    requires
        c.len() >= 12,
        aead_dec(password_key(p), c.take(12), c.skip(12)) == Some(x),
    ensures
        decrypt_spec(c, p) == Some(x),
{
}

} // verus!

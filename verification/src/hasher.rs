//! Content hashing.
//!
//! BLAKE3 digests, rendered as 64 lowercase hexadecimal characters, are the
//! identity of a blob: equal content gives equal hash, so identical files are
//! stored once.  The digest itself is computed by the `blake3` crate; this
//! module names its result and proves the sharding and display helpers.

use vstd::prelude::*;

verus! {

use vstd::string::*;


/// The BLAKE3 digest of `data`, rendered as 64 lowercase hex characters.
pub uninterp spec fn blake3_hex(data: Seq<u8>) -> Seq<char>;

/// Computes the BLAKE3 hash of in-memory data as a hex string.
///
/// Relies on `blake3::hash` and `blake3::Hash::to_hex`: the digest is a
/// function of the input bytes alone, rendered as 64 hex characters.
#[verifier::external_body]
pub fn hash_bytes(data: &[u8]) -> (r: String)
    ensures
        r@ == blake3_hex(data@),
        r@.len() == 64,
{
    blake3::hash(data).to_hex().to_string()
}

/// Equal byte content always yields the same hash string; hashing is a
/// function of the content alone.
pub proof fn lemma_hash_deterministic(a: Seq<u8>, b: Seq<u8>)
    ensures
        a == b ==> blake3_hex(a) == blake3_hex(b),
{
}

/// Returns the first `n` characters of a hash for display purposes.
pub fn short_hash<'a>(hash: &'a str, n: usize) -> (r: &'a str)
    ensures
        r@ == hash@.subrange(0, vstd::math::min(n as int, hash@.len() as int)),
{
    let len = hash.unicode_len();
    let k = if n < len {
        n
    } else {
        len
    };
    hash.substring_char(0, k)
}

/// Splits a hash into a 2-character prefix and the remaining suffix for
/// directory sharding.  Inputs shorter than 2 characters are returned whole
/// with an empty suffix.
pub fn shard_path<'a>(hash: &'a str) -> (r: (&'a str, &'a str))
    ensures
        r.0@ == hash@.subrange(0, vstd::math::min(2, hash@.len() as int)),
        r.1@ == hash@.subrange(vstd::math::min(2, hash@.len() as int), hash@.len() as int),
        r.0@ + r.1@ == hash@,
{
    let len = hash.unicode_len();
    let cut = if len < 2 {
        len
    } else {
        2
    };
    let prefix = hash.substring_char(0, cut);
    let suffix = hash.substring_char(cut, len);
    proof {
        assert(prefix@ + suffix@ =~= hash@);
    }
    (prefix, suffix)
}

} // verus!

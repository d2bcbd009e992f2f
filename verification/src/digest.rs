//! SHA-256 and HMAC-SHA-256, computed by *ring* and known here by name.

use vstd::prelude::*;

verus! {

/// The SHA-256 digest of a byte string.
pub uninterp spec fn sha256(data: Seq<u8>) -> [u8; 32];

/// The HMAC-SHA-256 tag of `message` under the key `secret`.
pub uninterp spec fn hmac_sha256(secret: Seq<u8>, message: Seq<u8>) -> [u8; 32];

/// The number of bytes from which *ring* refuses to digest: it counts the
/// bits of its input in 64 bits.
pub open spec fn digest_limit() -> int {
    0x2000_0000_0000_0000
}

/// What HMAC puts before the message: one block of SHA-256.
pub open spec fn hmac_prefix() -> int {
    64
}

/// `ring::digest::digest` with SHA-256: the digest of `data`, 32 bytes. The
/// bound leaves out the inputs on which *ring* panics, because their length
/// in bits does not fit its counter.
#[verifier::external_body]
pub(crate) fn sha256_digest(data: &[u8]) -> (out: [u8; 32])
    requires
        data@.len() < digest_limit(),
    ensures
        out == sha256(data@),
{
    let mut out = [0u8; 32];
    out.copy_from_slice(ring::digest::digest(&ring::digest::SHA256, data).as_ref());
    out
}

/// `ring::hmac::sign` under the key that `ring::hmac::Key::new` makes of
/// `secret` for HMAC-SHA-256: the tag of `message`, 32 bytes. The bounds
/// leave out the inputs on which the digests inside panic.
#[verifier::external_body]
pub(crate) fn hmac_tag(secret: &[u8], message: &[u8]) -> (tag: [u8; 32])
    requires
        secret@.len() < digest_limit(),
        message@.len() + hmac_prefix() < digest_limit(),
    ensures
        tag == hmac_sha256(secret@, message@),
{
    let key = ring::hmac::Key::new(ring::hmac::HMAC_SHA256, secret);
    let mut tag = [0u8; 32];
    tag.copy_from_slice(ring::hmac::sign(&key, message).as_ref());
    tag
}

/// Whether `len` bytes can be digested.
pub fn within_digest_limit(len: usize) -> (ok: bool)
    ensures
        ok == (len < digest_limit()),
{
    (len as u64) < 0x2000_0000_0000_0000u64
}

} // verus!

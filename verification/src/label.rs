//! The name generator: record labels that only a holder of the secret can
//! derive, one for each value of a counter.

use crate::digest::{digest_limit, hmac_sha256, hmac_tag};
use vstd::prelude::*;

verus! {

/// The Crockford base-32 text of a byte string, without padding.
pub uninterp spec fn crockford(data: Seq<u8>) -> Seq<char>;

/// A character of the Crockford alphabet: a digit, or a capital letter other
/// than I, L, O and U.
pub open spec fn is_crockford_symbol(c: char) -> bool {
    ('0' <= c <= '9') || ('A' <= c <= 'Z' && c != 'I' && c != 'L' && c != 'O' && c != 'U')
}

/// The number of Crockford characters that `n` bytes take: one for every
/// five bits begun.
pub open spec fn crockford_len(n: nat) -> nat {
    ((8 * n + 4) / 5) as nat
}

/// What `crockford` is known to give for `data`: so many characters, each of
/// the alphabet.
pub open spec fn crockford_shape(data: Seq<u8>, text: Seq<char>) -> bool {
    &&& text.len() == crockford_len(data.len())
    &&& forall|i: int| 0 <= i < text.len() ==> is_crockford_symbol(#[trigger] text[i])
}

/// `base32::encode` with the Crockford alphabet: the text of `data`, which
/// has one character of that alphabet for every five bits begun. The bound
/// keeps the size that the encoder reserves within `usize`.
#[verifier::external_body]
pub(crate) fn crockford_encode(data: &[u8]) -> (text: String)
    requires
        (data@.len() + 3) / 4 * 5 <= usize::MAX,
    ensures
        text@ == crockford(data@),
        crockford_shape(data@, text@),
{
    base32::encode(base32::Alphabet::Crockford, data)
}

/// A character with a capital ASCII letter made small.
pub open spec fn lower(c: char) -> char {
    if 'A' <= c <= 'Z' {
        ((c as u8) + 32) as u8 as char
    } else {
        c
    }
}

/// A text with its capital ASCII letters made small.
pub open spec fn lowered(text: Seq<char>) -> Seq<char> {
    Seq::new(text.len(), |i: int| lower(text[i]))
}

/// `str::to_ascii_lowercase`: a copy in which each capital ASCII letter is
/// replaced by its small letter, and nothing else is changed.
#[verifier::external_body]
pub(crate) fn ascii_lowercase(text: &str) -> (out: String)
    ensures
        out@ == lowered(text@),
{
    text.to_ascii_lowercase()
}

/// The eight bytes of a counter, most significant first.
pub open spec fn counter_bytes(c: u64) -> Seq<u8> {
    seq![
        ((c / 0x100_0000_0000_0000) % 256) as u8,
        ((c / 0x1_0000_0000_0000) % 256) as u8,
        ((c / 0x100_0000_0000) % 256) as u8,
        ((c / 0x1_0000_0000) % 256) as u8,
        ((c / 0x100_0000) % 256) as u8,
        ((c / 0x1_0000) % 256) as u8,
        ((c / 0x100) % 256) as u8,
        (c % 256) as u8,
    ]
}

/// The label of the record with number `counter` under `secret`: the HMAC of
/// the counter, rendered in small Crockford characters.
pub open spec fn label(secret: Seq<u8>, counter: u64) -> Seq<char> {
    lowered(crockford(hmac_sha256(secret, counter_bytes(counter))@))
}

/// A character that can stand in a label: a digit, or a small letter other
/// than i, l, o and u.
pub open spec fn is_label_symbol(c: char) -> bool {
    ('0' <= c <= '9') || ('a' <= c <= 'z' && c != 'i' && c != 'l' && c != 'o' && c != 'u')
}

/// The length of every label: 32 bytes of HMAC in base 32.
pub open spec fn label_len() -> nat {
    52
}

/// The counter as eight bytes, most significant first.
pub fn counter_to_bytes(c: u64) -> (out: [u8; 8])
    ensures
        out@ == counter_bytes(c),
{
    let out: [u8; 8] = [
        (c >> 56) as u8,
        ((c >> 48) & 0xff) as u8,
        ((c >> 40) & 0xff) as u8,
        ((c >> 32) & 0xff) as u8,
        ((c >> 24) & 0xff) as u8,
        ((c >> 16) & 0xff) as u8,
        ((c >> 8) & 0xff) as u8,
        (c & 0xff) as u8,
    ];
    proof {
        assert((c >> 56) == (c / 0x100_0000_0000_0000) % 256) by (bit_vector);
        assert(((c >> 48) & 0xff) == (c / 0x1_0000_0000_0000) % 256) by (bit_vector);
        assert(((c >> 40) & 0xff) == (c / 0x100_0000_0000) % 256) by (bit_vector);
        assert(((c >> 32) & 0xff) == (c / 0x1_0000_0000) % 256) by (bit_vector);
        assert(((c >> 24) & 0xff) == (c / 0x100_0000) % 256) by (bit_vector);
        assert(((c >> 16) & 0xff) == (c / 0x1_0000) % 256) by (bit_vector);
        assert(((c >> 8) & 0xff) == (c / 0x100) % 256) by (bit_vector);
        assert((c & 0xff) == c % 256) by (bit_vector);
        assert(out@ =~= counter_bytes(c));
    }
    out
}

/// Gives the label for the current value of the counter and moves the
/// counter on by one.
pub fn next_ahotp(counter: &mut u64, shared_key: &[u8]) -> (name: String)
    requires
        *old(counter) < u64::MAX,
        shared_key@.len() < digest_limit(),
    ensures
        *final(counter) == *old(counter) + 1,
        name@ == label(shared_key@, *old(counter)),
        name@.len() == label_len(),
        forall|i: int| 0 <= i < name@.len() ==> is_label_symbol(#[trigger] name@[i]),
{
    let message = counter_to_bytes(*counter);
    let tag = hmac_tag(shared_key, message.as_slice());
    *counter = *counter + 1;
    let upper = crockford_encode(tag.as_slice());
    let name = ascii_lowercase(upper.as_str());
    proof {
        assert forall|i: int| 0 <= i < name@.len() implies is_label_symbol(
            #[trigger] name@[i],
        ) by {
            assert(is_crockford_symbol(upper@[i]));
        }
    }
    name
}

} // verus!

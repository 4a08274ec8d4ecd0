//! Digests and the identities derived from them.

use crate::manifest_identity::{be_bytes, push_be};
use crate::text::{hex, hex_text, push_bytes, text_bytes};
use crate::Ref;
use vstd::prelude::*;
use vstd::string::StringSliceAdditionalSpecFns;

verus! {

/// A digest of 32 bytes, as the numbers that its two halves spell, most
/// significant byte first. The order of digests is the order of their bytes.
pub type Digest = (u128, u128);

/// The BLAKE3 digest of a byte string.
pub uninterp spec fn blake3_hash(bytes: Seq<u8>) -> (u128, u128);

/// `blake3::hash`: the digest is a function of the bytes alone.
#[verifier::external_body]
pub(crate) fn blake3_digest(bytes: &[u8]) -> (digest: (u128, u128))
    ensures
        digest == blake3_hash(bytes@),
{
    let hash = blake3::hash(bytes);
    let (high, low) = hash.as_bytes().split_at(16);
    (
        u128::from_be_bytes(high.try_into().unwrap()),
        u128::from_be_bytes(low.try_into().unwrap()),
    )
}

/// The bytes of a digest.
pub open spec fn digest_bytes(digest: Digest) -> Seq<u8> {
    be_bytes(digest.0 as nat, 16) + be_bytes(digest.1 as nat, 16)
}

/// Appends the bytes of a digest.
pub(crate) fn push_digest(out: &mut Vec<u8>, digest: Digest)
    ensures
        final(out)@ == old(out)@ + digest_bytes(digest),
{
    push_be(out, digest.0, 16);
    push_be(out, digest.1, 16);
    proof {
        assert(out@ =~= old(out)@ + digest_bytes(digest));
    }
}

/// How a digest is written: 64 hexadecimal digits.
pub open spec fn digest_chars(digest: Digest) -> Seq<char> {
    hex(digest.0 as nat, 32) + hex(digest.1 as nat, 32)
}

/// How a digest is written.
pub fn digest_text(digest: Digest) -> (text: String)
    ensures
        text@ == digest_chars(digest),
{
    let mut text: String = hex_text(digest.0, 32);
    let low: String = hex_text(digest.1, 32);
    text.append(low.as_str());
    text
}

/// The bytes that separate identities from every other digest.
pub open spec fn ref_domain() -> Seq<u8> {
    text_bytes("carbon-project-ref-v1"@).push(0u8)
}

/// The identity derived from a seed: the first half of its digest.
pub open spec fn stable_identity(seed: Seq<char>) -> Ref {
    blake3_hash(ref_domain() + text_bytes(seed)).0
}

/// Appends the bytes of a string.
pub(crate) fn push_text(out: &mut Vec<u8>, text: &str)
    ensures
        final(out)@ == old(out)@ + text_bytes(text@),
{
    push_bytes(out, text.as_bytes());
}

/// The identity derived from a seed.
pub fn stable_ref(seed: &str) -> (id: Ref)
    ensures
        id == stable_identity(seed@),
{
    let mut bytes: Vec<u8> = Vec::new();
    push_text(&mut bytes, "carbon-project-ref-v1");
    bytes.push(0u8);
    push_text(&mut bytes, seed);
    proof {
        assert(bytes@ =~= ref_domain() + text_bytes(seed@));
    }
    blake3_digest(bytes.as_slice()).0
}

} // verus!

//! Content fingerprinting for bookmarked documents.
//!
//! A fingerprint is a fast, non-cryptographic 64-bit digest of a file's full
//! byte content, computed with a fixed, publicly known seed so that identical
//! content always yields the identical value across runs and machines. It is
//! recorded once, when the first bookmark for a document is created, to
//! support later staleness detection; it is not a security primitive.

use vstd::prelude::*;

verus! {

/// Seed for the fingerprint digest. It only has to be fixed and publicly
/// known, not secret: the digest detects changed files, nothing more.
pub const HASH_SEED: u64 = 1337;

/// The 64-bit digest that `twox_hash::XxHash64::oneshot` computes for the
/// given byte content under [`HASH_SEED`]. The digest depends on the bytes
/// alone, so it is a mathematical function of them; its value on given bytes
/// is not spelled out here.
pub uninterp spec fn xxhash64_of(bytes: Seq<u8>) -> u64;

/// Relies on `twox_hash::XxHash64::oneshot`: a pure streaming digest over the
/// given bytes and seed, with no other input, so equal bytes give equal
/// results on every run and machine.
#[verifier::external_body]
fn xxhash64_oneshot(bytes: &Vec<u8>) -> (r: u64)
    ensures
        r == xxhash64_of(bytes@),
{
    twox_hash::XxHash64::oneshot(HASH_SEED, bytes.as_slice())
}

/// Computes the content fingerprint of one document's full byte content.
pub fn fingerprint(bytes: &Vec<u8>) -> (r: u64)
    ensures
        r == xxhash64_of(bytes@),
{
    xxhash64_oneshot(bytes)
}

/// Fingerprinting is deterministic: identical byte sequences always yield
/// the identical digest value.
pub proof fn lemma_fingerprint_deterministic(a: Seq<u8>, b: Seq<u8>)
    requires
        a == b,
    ensures
        xxhash64_of(a) == xxhash64_of(b),
{
}

} // verus!

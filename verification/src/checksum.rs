//! The keyed 64-bit checksum that fingerprints a symbol's byte content.
//!
//! Both peers of a session must use the same key for their fingerprints to
//! agree.  The digest is used only as a practically-unique identity tag.

use vstd::prelude::*;

verus! {

/// The keyed SipHash-2-4 digest of `data` under the key words `k0`, `k1`.
/// The digest has no short closed form; this name stands for it in contracts.
pub uninterp spec fn sip_of(k0: u64, k1: u64, data: Seq<u8>) -> u64;

/// Relies on std::hash::SipHasher (keyed SipHash-2-4).  Its documentation
/// fixes the digest as a pure function of the two key words and the byte
/// stream written to it, and nothing else; the body is the one
/// construct-write-finish sequence that computes a single digest.
#[verifier::external_body]
#[allow(deprecated)]
pub(crate) fn sip_hash(k0: u64, k1: u64, data: &Vec<u8>) -> (r: u64)
    ensures
        r == sip_of(k0, k1, data@),
{
    let mut hasher = std::hash::SipHasher::new_with_keys(k0, k1);
    std::hash::Hasher::write(&mut hasher, data.as_slice());
    std::hash::Hasher::finish(&hasher)
}

} // verus!

//! Keccak-256, from tiny_keccak.
use tiny_keccak::{Hasher, Keccak};
use vstd::prelude::*;

verus! {

/// The Keccak-256 digest of a byte string.
pub uninterp spec fn keccak256(input: Seq<u8>) -> Seq<u8>;

/// Keccak-256 of tiny_keccak: `Keccak::v256`, one `update` with the input and
/// `finalize` into 32 bytes. Claimed: the output is `keccak256` of the input
/// bytes. Nothing is said of what `keccak256` is.
#[verifier::external_body]
pub(crate) fn keccak256_digest(input: &[u8]) -> (out: [u8; 32])
    ensures
        out@ == keccak256(input@),
{
    let mut k = Keccak::v256();
    k.update(input);
    let mut out = [0u8; 32];
    k.finalize(&mut out);
    out
}

} // verus!

//! The 64-bit content hash.
use vstd::prelude::*;

verus! {

/// XXH64 (seed 0) of a byte string.
pub uninterp spec fn xxh64(data: Seq<u8>) -> u64;

/// Relies on `twox_hash::XxHash64::oneshot` with seed 0, the value that a default
/// `XxHash64` hasher gives after being fed the same bytes.
#[verifier::external_body]
fn xxh64_oneshot(data: &[u8]) -> (r: u64)
    ensures
        r == xxh64(data@),
{
    twox_hash::XxHash64::oneshot(0, data)
}

/// The content hash of a byte stream held in memory.
pub fn hash_stream(data: &[u8]) -> (r: u64)
    ensures
        r == xxh64(data@),
{
    xxh64_oneshot(data)
}

} // verus!

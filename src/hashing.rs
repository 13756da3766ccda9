//! Hashing of keys through std's default hasher.
use vstd::prelude::*;

verus! {

/// What std's default hasher yields for an integer key.
pub uninterp spec fn std_hash_u64(k: u64) -> u64;

/// What std's default hasher yields for a byte-string key.
pub uninterp spec fn std_hash_bytes(b: Seq<u8>) -> u64;

/// Relies on `BuildHasher::hash_one` over std's `DefaultHasher`, whose keys are
/// fixed, so that the result depends on the integer alone.
#[verifier::external_body]
pub fn calculate_hash(t: &u64) -> (r: u64)
    ensures
        r == std_hash_u64(*t),
{
    std::hash::BuildHasher::hash_one(&std::hash::BuildHasherDefault::<std::hash::DefaultHasher>::default(), t)
}

/// Relies on `BuildHasher::hash_one` over std's `DefaultHasher`, whose keys are
/// fixed, so that the result depends on the bytes alone.
#[verifier::external_body]
pub(crate) fn calculate_bytes_hash(b: &Vec<u8>) -> (r: u64)
    ensures
        r == std_hash_bytes(b@),
{
    std::hash::BuildHasher::hash_one(&std::hash::BuildHasherDefault::<std::hash::DefaultHasher>::default(), b.as_slice())
}

/// The fingerprint of a hash: its low eight bits.
pub open spec fn fingerprint(h: u64) -> u8 {
    (h & 255) as u8
}

/// The primary bucket a hash routes to inside a segment: the six bits above
/// the fingerprint.
pub open spec fn home_bucket(h: u64) -> int {
    ((h >> 8u64) & 63) as int
}

/// The home bucket of a hash is one of the 64 primary buckets.
pub proof fn lemma_home_bound(h: u64)
    ensures
        0 <= home_bucket(h) < 64,
{
    assert(((h >> 8u64) & 63) < 64) by (bit_vector);
}

/// The fingerprint of a hash.
pub fn meta_hash(var: u64) -> (r: u8)
    ensures
        r == fingerprint(var),
{
    (var & 255) as u8
}

/// The bucket index selected by the bits of `hash` above `finger_bits`.
pub fn bucket_index(hash: u64, finger_bits: usize, bucket_mask: usize) -> (r: usize)
    requires
        finger_bits < 64,
    ensures
        r as u64 == (hash >> finger_bits as u64) & (bucket_mask as u64),
        finger_bits == 8 && bucket_mask == 63 ==> r == home_bucket(hash) && r < 64,
{
    let r = (hash >> finger_bits as u64) & (bucket_mask as u64);
    proof {
        let m = bucket_mask as u64;
        assert(((hash >> finger_bits as u64) & m) <= m) by (bit_vector);
        lemma_home_bound(hash);
    }
    r as usize
}

} // verus!

//! A verified extendible hash index: buckets with packed metadata words,
//! segments with balanced insert, displacement and stash overflow, and a
//! directory of segments that grows by doubling.
use vstd::prelude::*;

pub mod bits;
pub mod bucket;
pub mod directory;
pub mod hashing;
pub mod index;
pub mod pair;
pub mod table;

verus! {

/// Number of primary buckets in a segment.
pub const K_NUM_BUCKET: usize = 64;

/// Number of stash buckets in a segment.
pub const K_STASH_BUCKET: usize = 2;

/// Number of low hash bits used as the fingerprint.
pub const K_FINGER_BITS: usize = 8;

/// Mask selecting the fingerprint bits of a hash.
pub const K_MASK: u64 = 255;

/// Mask selecting a primary bucket index.
pub const BUCKET_MASK: usize = 63;

/// Mask selecting a stash bucket position in an overflow index field.
pub const STASH_MASK: usize = 1;

} // verus!

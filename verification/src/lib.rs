//! Construction of a perfect hash function by pilot search with displacement.
//!
//! The keys of a part are split into buckets. Each bucket gets a *pilot*, a small
//! number that selects one slot for each of the bucket's keys. Building the function
//! means to find pilots under which no two keys of the part share a slot.
//!
//! - [`bucket_fn`]: the functions that decide how many keys each bucket receives, and
//!   [`bucket_laws`]: what they compute, in plain integers.
//! - [`hasher`]: from a key's hash and a pilot to a slot.
//! - [`bucket_idx`], [`sorted_buckets`], [`taken`]: bucket numbers, the keys of a part by
//!   bucket, and the bitmap of slots in use.
//! - [`placement`]: the search as a mathematical function.
//! - [`laws`], [`run_laws`]: what the search guarantees, and its steps.
//! - [`displace`], [`shard`]: the search itself, on one part and on a shard of parts.
//! - [`pilot_laws`], [`part_laws`], [`shard_laws`]: what the search does with the keys of a
//!   bucket, a part and a shard.
//! - [`util`]: fixed-point multiplication, and duplicates in a list.

pub mod bucket_fn;
pub mod bucket_idx;
pub mod bucket_laws;
pub mod displace;
pub mod hasher;
pub mod laws;
pub mod part_laws;
pub mod pilot_laws;
pub mod placement;
pub mod run_laws;
pub mod shard;
pub mod shard_laws;
pub mod sorted_buckets;
pub mod taken;
pub mod util;

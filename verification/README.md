# ptr_hash

Construction of a perfect hash function by pilot search with displacement.

The keys of a part are split into buckets by a *bucket function*. Each bucket gets a
*pilot*, a number of one byte, which sends each of the bucket's keys to a slot. The search
finds pilots under which no two keys share a slot. A bucket that fits nowhere evicts others,
which are then placed anew.

- `src/` is the library. `placement.rs` says what the search computes, `laws.rs` proves what
  it guarantees, and `displace.rs` and `shard.rs` carry it out. `bucket_fn.rs` holds the
  bucket functions.
- `app/` runs the parts of a shard on several threads, reports progress, and holds what is
  computed with floating-point numbers.
- `tests/` runs the library on concrete values.

The slots in use are kept in a bit vector of the `bitvec` crate. `taken.rs` states what is
relied on.

# seg

A segment-structured key-value cache with eager expiration, verified with
Verus. Items are written into fixed-size segments; segments are chained in
time-to-live buckets, so that items that expire together are dropped
together, and a hash table of 64-bit slots indexes the items.

Layout:

- `src/seg.rs`: the cache (`Seg`): its invariant, its model (a map from keys
  to entries), and `get` (with `get_at`, the clock reading and random draw
  given), `get_no_freq_incr`, `delete`, `items`, with the
  builder, demolisher, integrity check, copy and comparison entry points.
- `src/insert.rs`: `insert`, `insert_at` (with the clock reading given),
  `insert_secs` (with the time-to-live in whole seconds) and `cas`;
  `src/space.rs`: reserving room in
  segments and evicting by policy; `src/expire.rs`: `expire` and `clear`.
- `src/structure.rs`: the shape of the structures and the ordering of the
  segments of each time-to-live bucket.
- `src/laws.rs`: properties that relate the operations to one another.
- `src/builder.rs`: configuration, construction and restoring (`Builder`),
  and graceful shutdown (`Demolisher`).
- `src/snapshot.rs`, `src/image.rs`, `src/storage.rs`: the byte images that
  a shutdown saves and a restore reads, and the storage that holds them.
- `src/hashtable.rs`, `src/segments.rs`, `src/ttl_buckets.rs`, `src/item.rs`:
  the layout of slots, segments, buckets and items.
- `src/integrity.rs`: the executable check of the invariant.
- `src/platform.rs`: the clock, `Duration::as_secs` and random numbers, from
  the standard library and `rand`.
- `app/lib.rs`: reading the images from files and writing them back.

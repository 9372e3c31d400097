# segstore

Generic durable segmented store: write-ahead log, immutable segments, tombstone
deletes, checkpoint, and compaction. A consumer implements the `Store` trait to say
how a batch of items becomes a segment and how segments merge during compaction; the
segment representation is opaque.

The store's logic is a Verus library: every function in `src/` is verified against the
contract above it. It does no input or output. `app/` runs it on top of a
[`durability`](https://crates.io/crates/durability) directory, in memory or on disk.

## Layout

- `src/` is the library. `state.rs` says what a store is and what each operation does
  to it; `segmented.rs` holds the operations; `tiers.rs` chooses what to merge;
  `names.rs`, `sidecar.rs` and `checkpoint.rs` hold the on-disk formats; `content.rs`,
  `lineage.rs`, `recovery.rs` and `history.rs` hold what is proved of the operations
  together.
- `app/` reads and writes the files: it recovers a store from its directory, logs each
  operation, does the writes of a checkpoint, deletes garbage, and publishes views to
  concurrent readers. Floating-point size bands and ratios live there too.
- `tests/` runs the library on given values, most of it on top of an in-memory
  directory with injected faults.

## What is proved

- Compaction of any kind keeps the live entries. Full compaction leaves nothing else.
- A size-tier merge keeps to `min_merge`, `max_merge` and `max_merged_len`, and never
  touches a segment of more than half of `max_merged_len` items.
- While a store lives, a segment id is handed out once and names the same segment for
  good. So does an id that a manifest names, across restarts; one handed out since the
  last checkpoint can be handed out again after a crash.
- No acknowledged write is lost. Wherever a run stops, at a failed write or by a crash,
  and however often, reopening gives every entry that the acknowledged operations make
  up, and none of an identity whose last acknowledged operation is a delete. It gives
  nothing else of an identity that was never added while it might be tombstoned on disk;
  an add that revives one can bring older entries of it back, and
  `recovery::logging_keeps_backing` says when the writer and a recovered store agree on
  those.
- After adds, deletes, checkpoints and full compactions, reopening gives the same store:
  buffer, tombstones, ids, epoch and segments.
- Garbage collection takes what the manifest has superseded, and nothing it needs.
- Decoding a sidecar envelope inverts encoding it, and accepts nothing else; a change of
  any single byte is rejected.

What is believed rather than proved is in four small functions: the two checksums of
`crc.rs`, the payload cap in `checkpoint.rs`, and the quoted text in `names.rs`.

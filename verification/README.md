# dotdb_core

The storage core of a state database, written in Verus: the library under
`src/` is verified, and `app/` holds the thin layer around it (files,
threads, floating-point statistics, JSON).

- `src/state/` — Merkle Patricia Trie (nodes, nibble paths, proofs,
  read-after-write and read-after-delete laws, the key listing against
  lookups), state diffs, snapshots, pruning, contract storage layout,
  versioning, and the database layer (index decoding, node keys, the cached
  key-value store).
- `src/storage_engine/` — page and file format, page bookkeeping (free
  lists, batched frees, page versions), write-ahead log records, buffer pool
  decisions, lock manager, MVCC, optimistic concurrency control and deadlock
  detection.
- `src/statistics/` — access logs and their counts, and HyperLogLog
  registers.
- `tests/` — the tests, run against the compiled library.

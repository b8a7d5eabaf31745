# rust_caskdb

A small Bitcask-style key-value store, verified with Verus.

- `src/database/format.rs`: the record layout (a 12-byte little-endian header
  of timestamp, key size and value size, then the UTF-8 key and value), its
  encoders and decoders, and the round-trip laws.
- `src/database/memory_store.rs`: a store kept in memory only.
- `src/database/disk_store.rs`: the index of the disk-backed store (a
  `DashMap` from key to the place of its last record), the steps of the scan
  that rebuilds it when a file is opened, and the laws that a reopened file
  gives back the index and the values that were written.
- `src/database/mod.rs`: the error type of the disk-backed store.
- `app/`: the program, and the disk-backed store's file handling, which calls
  the library for every decision.

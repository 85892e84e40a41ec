# persisted_files

An index of the parquet files that a write buffer has persisted to object storage, written in
Verus. It answers which files a query on a table has to read, keeps one entry for each path, counts
files, bytes and rows, and finds what is marked for deletion or past its retention period.

- `src/model.rs` is the mathematical model: the files of a table are a sequence, the index maps a
  table to its files, and the metrics are the totals of what the index holds.
- `src/persisted_files.rs` is the interface. Behind it stand `src/inner.rs` (adding and removing
  files), `src/incremental.rs` (taking in one more snapshot), `src/load.rs` and `src/loader.rs`
  (building the index from snapshots), `src/query.rs` (filtering and ordering) and
  `src/deletion.rs` (deletion and retention).
- `src/replaced.rs` tells which entries a file takes the place of, so that `app/` can warn.
- `src/bytes.rs` is the signed counter for the size.
- `src/capacity.rs` tells whether the counters can hold what is to be added.
- `src/laws.rs` and `src/deletion_laws.rs`, and the last part of `src/query.rs`, hold what is
  proved of the index as a whole.
- `src/hash.rs` holds what is believed of `hashbrown`. The only other thing that is believed is
  that the standard library sorts, in `src/query.rs`.
- `app/` puts the index behind a lock, warns of replaced entries and turns bytes into MB.

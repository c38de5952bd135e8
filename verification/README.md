# lsm_engine

An LSM-tree key-value store: a skip-list memtable, a write-ahead log,
block-based sorted tables indexed by a Bloom filter (or a small learned
model), size-tiered compaction and a JSON manifest.

The library in `src/` is verified with Verus. Its contracts state what each
operation returns over mathematical models of the data (sequences of
versioned entries, the bytes of files), and the laws that tie the operations
together are proved as lemmas:

- `engine/memtable.rs`: the skip list, which keeps the versions of a key
  from the newest down; a write is read back and leaves other keys alone.
- `engine/format.rs`, `engine/wal.rs`: the entry record format and log
  replay; a log reads back as written, and a torn last record is dropped.
- `engine/block.rs`, `engine/sstable.rs`: blocks, block index, footer and
  table files; `engine/table_laws.rs` proves that a table built from entries
  in key order (several versions of a key among them, even across block
  boundaries) opens, answers lookups with each key's newest version and
  scans with the entries in range.
- `engine/merge.rs`, `engine/compaction.rs`: the newest-version merges of
  scans and compaction.
- `engine/levels.rs`: the tables by level and the read path.
- `engine/store.rs`: the engine's state and its decisions (sequence
  numbers, flushes, compactions, the read path from memtable to tables);
  a write is read back and leaves other keys alone, a run of puts and
  clears leaves the memtable holding exactly the entries put since the
  last clear, a flush keeps what
  lookups and scans answer, a compaction keeps what lookups answer, and
  replaying the log rebuilds the memtable. `engine/search_laws.rs` holds
  what the read path answers over tables built from entries.
- `index/`: the Bloom filter (an inserted key is never ruled out) and the
  stored form of a learned model (it reads back as written).
- `engine/manifest.rs`, `benchmark/harness.rs` (workload mixes, keys, and
  what each benchmark operation does).

`app/` holds what stays outside the proofs: files and directories, the JSON
form of the manifest, the floating-point learned index, the timed benchmarks
and the command line.

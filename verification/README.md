# FerrumDB

An embedded key-value store: named tables, durable writes, crash recovery. No query language, no
server.

A table is an LSM tree. Writes go to an append-only log and a sorted memtable; a full memtable
becomes an immutable table file; table files are merged once there are too many. Reads consult the
memtable, then the table files from the newest to the oldest.

## Layout

- `src/` is the engine, verified with Verus. It does no input or output: each operation gives a
  step that says what to append, write, read or remove, and goes on once that is reported done.
  - `bytes`, `crc`, `bloom`, `decimal`, `names`, `bounds`, `entry_map`: the parts.
  - `wire`, `proto`: values and log entries as protobuf messages, through `prost`.
  - `wal`, `format`, `sstable`: the log and the table files, byte for byte.
  - `model`, `store`, `transaction`: the state of a table and its operations.
  - `table`, `txn`, `database`, `errors`: the public interface over byte strings.
  - `log_laws`, `table_laws`, `read_laws`, `write_laws`, `value_laws`, `interface_laws`,
    `history_laws`, `database_laws`: what holds of the engine as a whole. What is written is read back. A commit
    lands whole or not at all, and nothing of one that failed stays in the log. After any history
    of commits, flushes, compactions, failures, crashes and reopenings every key has the value that
    was last written to it, as long as all lengths and counters fit in their fields.
- `app/` performs the steps on real files and holds the locks.
- `tests/` runs the engine with its files in memory.

## What is trusted

The functions in `src/wire.rs` marked `external_body` call the encoding primitives of `prost`.
Their contracts are believed, not proved. Everything else in `src/` is proved.

# kv_store

A key-value store built as a log-structured merge tree, with its core verified in
Verus.

- `src/storage/`: the storage engine. Writes go to a checksummed log and to a
  sorted table in memory; the table is flushed to immutable sorted files with an
  index and a Bloom filter; compaction merges those files into one that keeps the
  newest value of each key.
- `src/server/`, `src/client/`: what the server answers and what the command line
  prints.
- `src/raft/`: the types of a replicated log.
- `app/`: the program `kvctl`, which does the work on files and sockets.
- `tests/`: tests of the library, on a disk in memory.

The library performs no I/O. An operation of the engine runs in steps: a step asks
for one action on the disk, and goes on with the outcome (`src/storage/steps.rs`).

What the engine promises as a whole is stated on a disk that does what it is told
(`src/storage/disk_model.rs`), in these files beside it:

- `flush_laws.rs`, `write_laws.rs`, `read_laws.rs`: what was put is what is read; a
  flush changes no answer; a scan gives what lookups find.
- `compaction_laws.rs`: a compaction of intact files changes no answer, drops what was
  deleted or overwritten, and counts what it did.
- `recovery_laws.rs`: an engine that is opened again gives the same answers. So it does
  after a crash that cut a record of the log short, or that came, with intact files,
  between the steps of a flush or a compaction.
- `history_laws.rs`: after any run of these operations a lookup gives the last write,
  and opening the engine again gives it back as it was.

A part of a record that a crash left at the end of the log stays there when the engine
is opened again. Recovery stops at it, so what is written behind it is not covered by
these laws until a flush has emptied the log. Recovery also refuses a record of more
than 128 MiB: an engine does not open on a log that holds one.

Two functions are trusted rather than verified: `crc32fast::hash` (in
`src/storage/wal.rs`) and `String::from_utf8_lossy` (in `src/text.rs`).

The log is a run of records

```text
[length u32][op u8][key_len u32][value_len u32][key][value][crc32 u32]
```

and the layout of a table file is described in `src/storage/table_format.rs`.

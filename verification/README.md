# kv_store

A log-structured key-value store behind an HTTP server.

Puts and deletions go to a write-ahead log and to a table in memory. When that table holds 2000
keys, it is written out as a table on level 0. When a level has five tables, they are merged into
tables of the next level: for each key the newest entry wins, and deleted keys are dropped. A
manifest lists the tables of each level. A read asks the table in memory first, then the tables of
level 0 from the newest to the oldest, then the levels after it.

- `src/` is the store as a verified library. Its functions take the texts of files and return what
  is to be done to the files (`disk::Effect`); they do no input or output themselves. What they
  promise is in their contracts. `soundness.rs`, `flush_laws.rs` and `compact_laws.rs` state what
  the single operations keep: a read gives back the last write, a flush loses nothing wherever it
  is cut short, a merge leaves the answers as they were, but for deleted keys that a deeper level
  still has. `runs.rs` states what holds after any sequence of puts and deletions, from the first
  opening of the store or from any other state in which its files are in order, such as after a
  restart.
- `app/` does the input and output: files, the server, the client.
- `tests/` runs the library on files held in memory.

Three limits of the store show in these statements:

- Keys that contain `-`, `:` or a line feed cannot be read back from the manifest where they are
  the first or the last key of a table on a level above 0. Without merges any keys will do.
- After a restart the tables of levels above 0 are numbered from 0 again. A merge can then
  overwrite a table that is still listed, unless those levels have no tables.
- A merge that keeps more than 8000 keys makes the next level due for a merge in turn, so that
  compaction does not end.

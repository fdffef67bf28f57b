# crabstash

An embedded key-value store: a log-structured merge tree with transactions above it. The
library is written in Verus, and its contracts are proved.

- `src/common`: byte order, keys, bounds, integers in buffers, decimal text, checksums,
  compression.
- `src/storage`: the write-ahead log, memory tables, sorted tables on disk, the manifest,
  compaction and scans.
- `src/lock`: locks on keys and ranges, escalation, deadlocks, serializable validation.
- `src/txn`: timestamps, transactions and the engine that keeps versions.
- `src/db.rs`: the database as its callers see it.
- `tests`: what the library does on given values.
- `app`: files, threads and clocks around the library.

The library performs no input or output. An operation that has to touch a file returns its
effects in order, and `app` carries them out. An operation that has to wait for a lock
returns what it waits for, and is resumed when the lock was released or the time is up.

The modules whose names end in `_laws` hold what is proved across several operations: what
is read of what was written, what is recovered of what was logged, what locks and
validation keep apart.

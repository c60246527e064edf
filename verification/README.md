# tsdb_engine

A storage engine for one time series: a write-ahead log, a table of the newest points in memory,
and compressed, sorted tables in files that are merged when there are many. The library under
`src/` is written and verified in Verus. It touches no file: the engine asks for actions and is
told what came of them. `app/` performs the actions on a directory and turns doubles into the bit
patterns that the library holds.

- `src/compression/`: streams of bits; delta-of-delta coding of timestamps; exclusive-or coding of
  doubles; differences of whole slices.
- `src/lsm/bytes.rs`: little-endian numbers (byteorder) and checksums (crc32fast). These are the
  only functions whose contracts are believed without proof.
- `src/lsm/wal.rs`, `memtable.rs`, `table_format.rs`, `sstable.rs`, `names.rs`, `points.rs`: the log,
  the memory table, the table format with its writer and reader, the names of table files, and
  sequences of points.
- `src/lsm/protocol.rs`, `engine.rs`: what the engine asks for when, and the engine.
- `src/lsm/table_laws.rs`, `scan_laws.rs`, `store.rs`: what holds of tables, of scans, and of the
  engine together with what is on disk. Timestamps and doubles come back from a table as they were
  written. Every step keeps the data, a scan shows the newest value of each timestamp, and a crash
  between actions or during one loses nothing that was logged.

The law of crashes speaks of actions that were performed on the disk, and takes it that what was
written before stays as it is; a record or a table that was being written may be left cut short.
`app/` hands the records of the log to a buffer, so there it holds of what was written before the
last `sync`. Recovery leaves a log that was cut short as it is; `Wal::trim` cuts it behind its last
whole record, so that later records are found again. A table that is cut short has to be taken away;
its points are still in the log or in the tables that it was merged from.

Tables are merged in the order of their names, those with a number among themselves by number, so
that of two tables of the engine the newer one wins. The laws of tables are stated for those that
fit into memory and whose index is at most as long as the four bytes of its length can say.

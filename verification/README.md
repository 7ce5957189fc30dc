# engine

A small log-structured key-value storage engine, verified with Verus.

Writes go to a write-ahead log and to an in-memory table (a skip list); when the
in-memory table holds more than 4 KiB of keys and values it is written out as a
sorted string table, and reads look at the in-memory table first and then at the
tables from the newest to the oldest, so the latest write of a key wins and a
deletion hides every older value.

## Layout

- `src/` is the verified library:
  - `skiplist.rs`: the skip list, an ordered map kept in an arena of nodes, and
    its level-by-level drawing (`drawing.rs` spells out the text);
  - `cli.rs`: one step of the interactive shell over a skip list;
  - `memtable.rs`: the in-memory table and the encoding of stored values;
  - `wal.rs`: the log entry format and its replay;
  - every data block of a table holds at least one entry, so every key, the
    empty one included, reads back as written;
  - `sstable/`: the table layout (`format.rs`), its writer and reader, and the
    proof that reading a table gives back what it was written from
    (`roundtrip.rs`);
  - `engine.rs`: the engine, which asks its caller to store the tables it
    flushes and to hand their bytes back when a read needs them;
  - `codec.rs`: the calls into `bitcode`, with what is assumed of them.
- `app/` is the program around it: files, the log on disk, a small shell and
  demonstrations.
- `tests/` runs the library on concrete values.

# shards

The storage of a shard: an append-only log of Base64 records, one to a line, in files. Each file
holds a segment of the log and is named after the position of the segment's first byte.

- `src/` is the library. It decides what to write, where to read and what to answer, and Verus
  proves its functions. Not proved, but stated above each, is what four small functions get from
  outside: Base64 decoding, UTF-8 validation, joining paths and the `Debug` form of text. Nor is that
  a path's clone is the same path. The library touches no file: each function that needs one says
  what has to be done, and takes what came of it.
  - `number`, `order`, `line`: decimal numbers, byte-wise order and lines of text.
  - `record`: records, and which bytes may become one.
  - `dir`: the names of segment files, and which of them a position belongs to.
  - `writer`, `reader`: the two ends of the log.
  - `request`: how requests are answered, step by step.
  - `log`: the log as a whole. `law_written_is_read` says that what was written is what is read,
    `law_round_trip` that all of it is, and `law_requests_go_on` that requests skip and repeat
    nothing.
- `app/` does the work on disk and runs the threads.
- `tests/` runs the library on a disk that is kept in memory.

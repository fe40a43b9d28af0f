# dm-database-parser-sqllog

Parsing of DM database SQL logs (`dmsql_*.log`), verified with Verus.

A record starts with a line `YYYY-MM-DD HH:MM:SS.mmm (EP[n] sess:.. thrd:..
user:.. trxid:.. stmt:.. appname:.. ip:..) [TAG] SQL ...`, may continue over
several lines, and may end with the indicators
`EXECTIME: t(ms) ROWCOUNT: n(rows) EXEC_ID: id.`

## Layout

- `src/` — the verified library. Every function carries a contract over
  mathematical models (`Seq`, `Map`, `int`), and the laws of the library are
  public proof functions:
  - `parser/`: the record parser (`parse_record_with_hint`), the line-by-line
    record assembler, encoding detection, and the line-based record and entry
    parsers;
  - `record.rs`, `sqllog.rs`: the parsed record, its meta fields, indicators
    and lock events, eagerly or lazily parsed;
  - `filter/`: conditions combined with AND;
  - `realtime.rs`: incremental parsing of a growing file;
  - `rounding.rs`: when an execution time reads as zero in `f32`;
  - `scan.rs`, `number.rs`, `text.rs`, `matcher.rs`: the byte searches
    (`memchr`), integer prefixes (`atoi`), decoding (`simdutf8`, `encoding`)
    and multi-pattern search (`daachorse`) behind trusted wrappers.
- `app/` — file and stream reading, the async front end (`tokio`), the error
  types with `Display` (`thiserror`), and execution-time filters on `f32`.
- `tests/` — tests of the library.

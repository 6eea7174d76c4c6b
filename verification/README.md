# vigil

A log watcher for structured JSON logs, with a verified core.

`vigil --watch <file>` runs a daemon that tails a file of JSON lines and keeps its events in memory,
indexed by field and by time. Queries such as

```
level = ERROR AND status >= 500 | count
timestamp > -1h | p99 latency_ms
| tail 10
```

are sent to it over a Unix socket. A write-ahead log and snapshots let the daemon go on where it
stopped.

## Layout

- `src/` is the library. Everything that decides or computes stands there with a contract that Verus
  proves: reading log lines, the query language, the index, aggregation, the framing of the log,
  checkpoints and recovery, and the daemon's course from start to end.
- `tests/` runs the library on concrete values.
- `app/` is the program around it: arguments, files, sockets, tasks, and encoding.

## Numbers

Field values are numbers of single precision. The library holds them as their IEEE 754 bit patterns
(`binary32`) and computes on those: it reads literals (`literal`), rounds numbers of double precision
(`narrowing`), adds and divides (`arithmetic`), each correctly rounded with ties to even (`rounding`).

## Laws

What holds of several functions together is stated in public proof functions whose names start with
`law_`: what is appended to the log is read back, a torn tail is dropped, recovery restores the index,
a saved checkpoint too, polls add up to reading a file at once, `NOT` matches the rest, filters are read with the precedence
that the language promises.

# http_downloader

An HTTP file downloader. Where the server serves ranges, a file is fetched in ranges, several
at a time; each piece that arrives is recorded in a status file (`<name>.st`), so that an
interrupted download goes on with exactly what is missing. Other files are fetched in one
response. A finished file can be checked against an MD5 digest.

- `src/` is the library, verified with Verus: names and headers, the status file, the ranges to
  request, and the two transfers as state machines. Each is told what happened and says what to
  do next.
- `app/` does the work around it: requests, files, tasks and callbacks.
- `tests/` runs the library on concrete values.

The status file holds a line `<byte count>:<offset>` for each piece. What is trusted about the
crates that the library calls stands in `headers.rs` (the header map), `address.rs` (URLs) and
`digest.rs` (MD5), and about the standard library in `text.rs`, `digest.rs` and `paths.rs`.

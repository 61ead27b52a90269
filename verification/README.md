# nomos

Job-log handling of the nomos job runner, with its logic verified by Verus.

- `src/log.rs`: log records, log file paths, line splitting of log buffers,
  forward and backward readers of a log file, and assembly of log pages.
- `src/text.rs`: line splitting of text, trimming of line endings, decimal digits.
- `src/utils.rs`: webhook signature checks (HMAC-SHA256) and the search for
  the descendants of a process.
- `src/handlers/`: the pure parts of the HTTP and page handlers (queries,
  log items, duration text, page models).
- `src/script/types/bash.rs`: the commands that a bash script runs.
- `app/lib.rs`: file, clock and environment work, and the serde forms of
  the library's records.

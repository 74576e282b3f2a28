# tokensawe

A proxy that shortens command output for coding assistants, as a verified
library and a thin command-line program.

- `src/text.rs`: character-sequence primitives (lines, splitting, trimming,
  words, decimal numbers) with the specifications of the `str` operations
  they stand for.
- `src/filters.rs`: the output filters and the choice among them.
- `src/hooks.rs`: the managed settings block of a configuration file.
- `src/session.rs`: the cache that omits unchanged output shown a moment ago.
- `src/savings.rs`: the savings log line and the summary of the log.
- `app/`: the program — argument parsing, running the command, files, the
  session and log files, printing.

# marginalia

Review comments anchored to a file and a line range, kept in an append-only
log (`.marginalia/comments.jsonl`) and read back by a coding agent through an
MCP server.

- `src/` is the library, verified with Verus: folding the log's events into
  the pending comments (`store`), re-locating each comment's quoted lines in
  its file (`anchor`), the rows a selection covers (`range`), and what the
  command, the MCP server and the Zed extension decide and print (`cli`,
  `mcp`, `zed`). Laws that span several calls stand there as proof functions
  named `law_*`.
- `app/` is the program around it: the `marginalia` command, the
  `marginalia-mcp` server (the same binary run under that name), the Zed
  extension, and the file I/O and JSON (de)serialisation of the log.
- `tests/` runs the library on concrete values.

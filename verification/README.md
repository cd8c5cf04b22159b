# Ledgerstone

An embedded relational database: typed tables, a hand-written SQL lexer,
parser and executor, and an append-only log that rebuilds the database when
it is opened. The library is verified with Verus; its contracts state the
meaning of every statement over mathematical models of the tables.

## Layout

- `src/` — the verified library.
  - `types.rs` — column types and values; a REAL is an exact decimal.
  - `lexer.rs`, `parser.rs`, `ast.rs` — SQL text to statements, with the
    grammar written as spec functions.
  - `executor.rs` — running a statement; `execute_spec` is its meaning.
  - `storage.rs` — tables, the records of changes, and their replay.
  - `wal.rs` — the length-prefixed framing of the log on disk.
  - `render.rs`, `http.rs`, `mcp.rs` — the text, HTTP and MCP answers.
  - `properties.rs` — laws of the engine as a whole.
- `app/` — the `ledgerstone` command: file and network I/O, JSON.
- `tests/` — tests of the library.

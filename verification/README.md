# rtk-mcp-server

A code-intelligence server for MCP clients (`rtk-index`): symbol lookup,
hybrid BM25 + semantic search, file outlines, grep/find over the same walk
as the index, and a measured account of the tokens each answer saves.

## Layout

- `src/` — the verified library (Verus). Every function states what it
  returns in its contract and is proved against it, except a few small
  trusted wrappers around outside code, whose contracts are assumed and not
  proved: `char` classification (`text.rs`: `is_alphabetic`,
  `is_alphanumeric`, `is_lowercase`, `is_uppercase`) and `String` building
  (`string_of`); tree-sitter parsing (`chunker.rs`: `parse_tree`,
  `node_count`, `node_at`); blake3 fingerprints (`index.rs`:
  `content_hash`); globset and regex matching (`tools/find.rs`:
  `compile_glob`, `glob_is_match`, `glob_error_text`; `tools/grep.rs`:
  `compile_regex`, `regex_is_match`, `regex_error_text`); and the clock
  (`trace.rs`: `now`, `elapsed_since`, `whole_millis`). Each says in its doc
  comment what it claims of the outside function.
  - `text.rs`: character-level helpers (UTF-8 lengths, lines as
    `str::lines` splits them, trimming, decimal rendering, padding, paths).
  - `select.rs`: stable top-n selection.
  - `telemetry.rs`: events, token estimates, the log's location and rotation,
    report filters.
  - `gain.rs`: the savings report's arguments, totals, rows and rankings.
  - `update.rs`: version comparison, install method and update plan.
  - `chunker.rs`: symbols of a file (markdown sections; tree-sitter nodes for
    Rust, TypeScript/TSX/JavaScript and Python).
  - `index.rs`: what the index takes, re-indexes, purges and embeds; rank
    fusion (RRF); numbered line ranges; code-aware tokenization.
  - `tools/`: the answer of each tool (`find`, `grep`, `lookup`, `search`,
    `outline`, `bulk`, `diff`) from what was read.
  - `server.rs`: request routing, the answer footer, the command line and the
    idle warm-up decisions.
  - `context.rs`, `trace.rs`, `testutil.rs`: default root, timed spans, test
    paths.
- `tests/` — tests of the library on concrete values.
- `app/` — the program: stdio JSON-RPC loop, SQLite/tantivy/fastembed
  storage, file walks and reads, processes, the clock and the environment,
  and the report printing (its percentages and compact figures are floating
  point).

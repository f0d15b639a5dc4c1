# anywords

A local full-text search server for documents (PDF, Office Open XML, EPUB,
plain text, and more through Apache Tika), with a REST API and an MCP
endpoint for AI agents.

The decisions of the server are a library verified with Verus, in `src/`:

- `text` — character-level string operations stated over `Seq<char>`, UTF-8
  byte lengths and character boundaries.
- `config` — settings, defaults, the checks and normal form of a
  configuration update, and which changes need a restart.
- `watch` — the watched-directory list and the debouncing of change events.
- `search` — query plans, filters, pages, keywords, result ordering, facets,
  sizes and dates, previews, suggestions and CSV export.
- `snippet` — plain and highlighted result snippets.
- `extract` — markup stripping, PDF text operators, byte-order-mark
  decoding, archive parts and the choice of reader for a MIME type.
- `tika` — when Tika is used and what its answers mean.
- `indexing` — which files are indexed and what the watcher does on a change.
- `mcp`, `api` — the JSON-RPC methods and tools, and the answers of the HTTP
  handlers.

`app/` is the server around it: configuration file, Tantivy index, file
reading, Tika processes and requests, the axum router and the notify watcher.

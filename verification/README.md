# rust_rag

A local retrieval-augmented search and question-answering tool for Rust
workspaces: it cuts a workspace's Rust files into chunks along the syntax tree,
embeds them, stores them in a JSONL index, searches the index with a blend of
embedding similarity and BM25, and asks an OpenAI-compatible LLM about the
chunks it finds. It offers a command line, an interactive terminal chat, an
HTTP API and an MCP server.

## Layout

- `src/` is the library, verified with Verus: the decisions the tool makes
  that do not need the file system, the network, a clock or floating point.
  - `indexer`, `overlap`: parsing a Rust file (tree-sitter's listing of the
    tree, rebuilt), chunk extraction from the syntax tree, nesting depth,
    neighbouring-line context.
  - `state`: which files changed since the last index.
  - `vector_store`: search filters, symbol kinds, the tokenizer and term
    counts of the keyword index.
  - `callgraph`: call edges between function chunks, callees matched to
    nodes by symbol name, in a `petgraph` graph.
  - `embedding`, `semantic_cache`: cache keys, cache file lines, model
    checksums, entry expiry.
  - `server`, `mcp`, `llm`: rate limiting, authentication, request checks,
    context trimming, JSON-RPC dispatch, the tool list and tool arguments, endpoint checks,
    server-sent events.
  - `tui`, `transcript`: the chat's key handling, navigation, answer stream
    and layout.
  - `eval`, `diagnostics`: retrieval ranks and chunk statistics.
  - `config`, `error`, `json`, `text`, `workspace`, `pipeline`: the
    configuration, error type, JSON values (JSON and TOML text parsed with
    `serde_json` and `toml`), text helpers, workspace manifests and the
    indexing and asking pipeline's steps.
- `app/` is the program around it: command line, terminal drawing, sockets,
  file and network I/O, the embedding model, the floating-point scores and
  the JSON-lines index and cache files that hold them, and the serde
  decoding of the configuration and of JSON-RPC requests.
- `tests/` exercises the library.

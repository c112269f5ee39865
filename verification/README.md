# universal_agent_runtime

The verified core of an agent runtime that runs tools from MCP servers and
code in sandboxes. Every function in `src/` carries a contract that Verus
proves; `app/` is the thin host layer around it.

## Layout

- `src/mcp/` — MCP servers: configuration admission and placeholder
  expansion (`config`, `placeholder`), configuration digests (`digest`),
  declarations and catalogs (`catalog`), authority-aware projection of a
  run's servers and tools (`projection`), preflight of optional servers
  (`preflight`), deferred tool exposure and search (`exposure`), the binding
  cache with its generations and tickets (`binding_cache`), lifecycle
  publication (`lifecycle`, `run_events`), per-run credentials and headers
  (`runtime`), remote endpoints (`remote`), and the registry: tool index,
  routing, service slots and admission (`tool_registry`, `registry`).
- `src/sandbox/` — sandbox types and runners, execution phases and their
  supervisor, capability bindings, session bookkeeping, the sandbox tools'
  requests, and backend selection (`platform`).
- `src/server.rs` — decisions of the HTTP host that depend on values alone:
  session ids, titles, cookies, catalog status, shutdown coordination.
- `src/anthropic.rs` — conversion of Anthropic Messages content into OpenAI
  chat messages.
- `src/normalized.rs`, `src/tools.rs`, `src/policy.rs`, `src/ids.rs`,
  `src/text.rs`, `src/urls.rs` — shared models and text utilities.
- `app/` — reading `mcp.json` and the process environment, JSON encodings of
  library types, and local process execution.
- `tests/` — scenarios on concrete values.

Outside crates are reached only through small trusted wrappers: `sha2` for
digests, `uuid` for random and parsed identities, `url` for URL parsing,
`http` (through `reqwest`) for header names and values, and `serde_json` for
JSON string quoting.

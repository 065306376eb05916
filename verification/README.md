# kube_docs_mcp

An MCP server that gives AI agents structured Kubernetes knowledge from a read-only
SQLite index: `kubectl explain`-style field documentation, manifest validation against
the real schemas, an annotation catalog, and full-text search over reference docs.

The logic is a library verified with [Verus](https://github.com/verus-lang/verus);
the server around it is ordinary Rust.

| path | what |
|---|---|
| `src/` | the verified library: query sanitising (`db`), kind parsing, ranking, picking and the schema cache (`schema::store`), schema explanation (`schema::explain`), YAML parsing, draft-04 checking, strict mode and the validation report (`validate`), search result shaping (`search`), metrics, updater decisions, tool result bodies (`mcp::tools`), static file rules (`web`), and their JSON, text and sorting foundations (`json`, `text`, `sort`) |
| `tests/` | tests of the library |
| `app/` | the server: SQLite access, downloads, the MCP and HTTP transports and the command line |

Public functions state their results in their `ensures`, over spec functions of the
inputs; where a result comes from an outside crate (zstd, serde_json, serde-saphyr,
jsonschema, mime_guess), it is stated through a named result of that call, and where it
comes from the clock (`Metrics::uptime_secs`) nothing is claimed of its value. Laws that
relate several functions (the FTS sanitiser never lets an operator through, LIKE
prefixes match literally, candidates are ranked by a strict weak order, an ambiguous
answer offers one candidate per project and group, the suggested `apiVersion:Kind`
form selects its candidate, pages tile a document, a cached schema reads back what was
stored) are public proof functions next to the code they are about.

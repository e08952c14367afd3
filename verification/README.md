# distributed (verified core)

Verus-verified rules of the `distributed` application framework:

- `src/table.rs`: declared table schemas, typed row values and named row
  scopes, with their views and schema validation.
- `src/read_model/`: bounded keyset scans over read models (request
  validation, filter matching, page and cursor construction) and the SQL
  text/binds a relational store runs for a scan.
- `src/command_ledger/`: the command ledger's reservation, attempt fence,
  external dispatch binding (with its canonical storage spelling), and the
  completion rules that produce the replay envelope.
- `src/cell_host.rs`: the cell wait-path host's decisions: route lookup,
  mapping of remote refusals, and the step-by-step reservation/abandon/complete
  protocol of one routed invocation.
- `src/json.rs`: JSON values as the library holds them, their compact text
  and the object edits compaction makes.
- `src/projection_contract.rs`: compaction and expansion of modeled
  projection programs: shared tables and references, expansion budget,
  canonicity and the final round-trip check.
- `src/text.rs`: character classes and text helpers.

`app/` holds the serde, sqlx and async plumbing around these functions:
conversions between `serde_json::Value` and the library's `Json`, the sqlx
query builder and page fetch, and the async cell host loop.

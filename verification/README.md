# pycallgraph_rs

Support library of a Python call-graph tool, written in Verus: every
function in `src/` carries a contract that Verus proves.

Layout:

- `src/intern.rs` — string interning with `SymId` handles.
- `src/scope.rs` — lexical scopes and the scope stack used during name
  resolution.
- `src/table.rs` — small vector-backed sets and maps keyed by ids and names.
- `src/syntax.rs` — the parts of a Python syntax tree the scope pass reads.
- `src/prepass.rs` — collection of the names each module, class and
  function scope binds, and merging of scope tables.
- `src/compact_edges.rs` — frozen, sorted edge sets.
- `src/node.rs`, `src/visgraph.rs` — call-graph nodes and the visual graph
  the writers render.
- `src/writer/` — DOT, TGF and text writers, and the JSON report
  (`writer/json.rs`).
- `src/text.rs`, `src/sorting.rs` — string order, numerals and facts about
  sorted sequences shared by the proofs.
- `tests/` — tests run against the compiled library.
- `app/` — the JSON serialisation with serde, which reads the working
  directory and is not verified.

Laws of the library stand in `src/` as public proof functions named `law_*`.

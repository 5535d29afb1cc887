# quantumseal (verified comparison-report library)

Renders the result of comparing a CryptoBOM with a saved baseline (as text and
as JSON) and reads the component snapshots such a comparison works on, from a
baseline JSON document or from an in-memory BOM. Computing the comparison
itself is not part of this library. Every function is proved in Verus against
its contract.

- `src/diff.rs`: component snapshots, the comparison result (`Diff`), its
  text and JSON reports, reading snapshots, and the laws relating them.
  Snapshot sets are vectors sorted by id with each id once.
- `src/json.rs`: the JSON values the reports and baselines are made of
  (integer numbers; objects sorted by key, each key once, as a type invariant).
- `src/cbom.rs`: the parts of a CryptoBOM that a comparison reads.
- `src/text.rs`: the order of texts, text equality, decimal rendering.
- `tests/`: tests on concrete values.

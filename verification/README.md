# cohere_core

A JSON/TOML validator with relational JSON Schema extensions, verified with Verus.

A schema is a JSON Schema that may also carry three keywords:

- `x-uniqueAcross`: the values found at a list of JSONPaths are pairwise different;
- `x-references`: every value found at `from` equals a value found at one of `to`;
- `x-referencedBy`: every value found at `target` is referenced by values found at
  `from` between `min` (default 1) and `max` times.

Standard keywords are checked by the `jsonschema` crate; the `x-` rules, the JSONPath
dialect, the source maps of JSON and TOML documents and the error locations are the
library's own, verified code.

## Layout

- `src/value.rs`: the JSON data model, its view, and value equality.
- `src/json.rs`, `src/walk.rs`: JSON parsing (through `serde_json`) and the walk over
  the document's text that records the span of each value it reaches.
- `src/toml.rs`: TOML parsing (through `toml-span`) and conversion to JSON values with
  a source map.
- `src/source_map.rs`: line tables, spans and the source map.
- `src/jsonpath.rs`: parsing and evaluating paths such as `nodes[*].name`.
- `src/schema.rs`: reading the rules of a schema.
- `src/validate.rs`: validation, error messages, error locations, and the laws that
  the rules obey.
- `src/text.rs`: string helpers.
- `app/`: the JavaScript (WebAssembly), Python and Swift (C ABI) bindings.
- `tests/`: tests of the library.

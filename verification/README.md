# pg_wodekit

Online mining of log templates for PostgreSQL: similar messages are clustered, and what varies
in them is replaced by wildcards.

- `src/` is the library, verified with Verus: splitting messages into tokens, the prefix tree,
  similarity, learning and matching, eviction, parameter extraction, and the SQL texts and
  bookkeeping of models in a session.
- `tests/` holds its tests.
- `app/` is the PostgreSQL extension around it, built with pgrx: the SQL functions, access to
  tables, and the stored form of a model.

Similarities are IEEE 754 doubles, held by their bit patterns; the library computes and compares
them with integers.

What is believed without proof: `String::push` of the standard library, and the constructors of
`serde_json::Value` together with `serde_json::Map::new` and `serde_json::Map::insert`.

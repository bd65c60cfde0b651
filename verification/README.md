# loom_core

A local, DynamoDB-compatible document store: attribute values and their
order-preserving key encoding, decimal numbers, the expression language
(key conditions, conditions and filters, updates, projections), secondary
indexes, expiry, and the operations (tables, items, queries, scans,
transactions, batches) on top of a storage port. Everything under `src/` is
verified with Verus.

Layout:

- `src/domain/` — values (`attribute`, `sets`, `number`, `arith`), key
  encoding (`key_codec`, `byte_order`), tables, indexes, expiry, and the
  expression language (`expr/`: lexer, grammar, parser, evaluator, updates,
  projections).
- `src/ports/` — the storage port an adapter implements (ordered key-value
  transactions and a clock).
- `src/application/` — where definitions and counts are kept (`meta`,
  `counts`) and the operations (`usecases/`). The stored form of
  definitions and items is passed in as a `Codec`.
- `src/bridge*` — what the language bindings share: JSON requests read into
  the library's types, error codes, and hex tokens for pagination.
- `app/` — a demonstration program: an in-memory engine, MessagePack as the
  stored form (serde copies of the library types), and JSON output.
- `tests/` — the behaviour on an in-memory engine, and the domain on its own.

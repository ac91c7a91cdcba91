# nexus_db

A multi-model database engine — tables, JSON documents, graphs, indexes,
MVCC transactions, replication, sharding, SQL statements and a
PostgreSQL-style wire protocol — whose core is verified with Verus.

## Layout

- `src/` — the verified library. Every function carries a contract over a
  mathematical model (`Seq`, `Map`, views of the data types), and the
  properties that relate several operations are stated as public proof
  functions (`lemma_*`).
  - `collections.rs`, `idmap.rs` — insertion-ordered maps keyed by text and
    by record id.
  - `types.rs` — values, rows, documents, graph nodes and edges.
  - `storage/` — LRU and buffer caches, MVCC locks and versions, the
    write-ahead log and transactions, storage backends and persistent tables.
  - `engine/` — the table, document and graph stores, indexes and Bloom
    filters, the query result cache, authentication, constraints,
    replication, sharding and distributed planning.
  - `query/` — DML statement parsing and execution, the SELECT parser
    (through sqlparser), built-in SQL functions, the statement executor and
    WHERE evaluation, joins, aggregates, window functions, common table
    expressions, full-text search and planning.
  - `sql/` — statement parsing (through sqlparser) and conditions over rows
    of texts.
  - `monitoring/`, `protocol/` — telemetry; wire-protocol frames and the
    reading of client messages.
- `tests/` — tests of the library.
- `app/` — the server around the library: `main`, the REST API (axum), the
  TCP server (tokio), the conversion of parsed WHERE clauses, and the parts that
  compute in floating point (costs, selectivities, ratios, vector search).

# Rango

A local-first memory substrate: an embedded document engine with an
append-only oplog, last-writer-wins replication with conflict tracking, a
governance control plane, and a sync hub that keeps tenants and namespaces
apart.

## Layout

- `src/` — the library, written in Verus and verified:
  - `value`, `size`, `filter`, `query`, `update`, `sort`, `cursor`, `store`:
    documents, their encoded size, queries, updates, sorting and results;
  - `revision`, `engine`, `laws`: revisions, the engine's state transitions
    and the properties they keep (read-after-write, convergence, bounded
    conflicts);
  - `oplog`, `framing`: the operation log in memory and its on-disk framing
    and compaction;
  - `control_plane`, `fixed`, `containment`: governance decisions, trust
    score text, anomaly containment and rate limiting;
  - `server`, `retrieval`: the sync hub's request handling and retrieval;
  - `json`, `export`: extended-JSON import, and the JSON export of stored
    values (importing plain JSON and exporting it gives it back);
  - `sdk`, `cli`, `index`: the client API, the tool's decisions, and
    secondary indexes.
- `app/` — the command-line tool and the HTTP hub around the library.
- `tests/` — tests of the library through its public API.

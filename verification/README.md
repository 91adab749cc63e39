# backend

The decision logic of a local multi-agent assistant server, verified with Verus.

- `src/` is the library. Each module states its behaviour as contracts over
  mathematical models and proves them:
  - `text`, `digest`: text helpers (blank test, character prefixes, decimal
    writing) and SHA-256 checksums in lowercase hexadecimal.
  - `ranking`, `order`, `retrieval`: lexical terms and relevance, a stable
    rank order, and the choice of whole conversation exchanges that fit a
    context budget.
  - `memory`: remembered answers, their checksums, ranking of recalled entries,
    project scoping and schema steps.
  - `agent`, `orchestration`, `request`: agents, layered mixtures, supervised
    teams and populations, their checks, execution plans, and run requests.
  - `turn`, `tool_exchange`, `supervision`, `collaboration`: the budgets and
    decisions of an agent turn, of a supervised run and of collaborative rounds.
  - `configuration`, `session`: saved configurations and the WebSocket
    session's decisions.
- `tests/` exercises the library on concrete values.
- `app/` holds the I/O: serde wire forms, SQLite storage, the axum WebSocket
  server and the asynchronous run loops, which hand every decision to the
  library.

# Port Authority

`porta` reserves and leases local TCP ports so that parallel worktrees, agents
and development servers stop colliding. State lives in one per-user registry
file; concurrent runs coordinate through a file lock.

The decisions are a library verified with Verus:

- `src/duration.rs`, `src/text.rs`: the duration grammar and its canonical
  spelling, with a round-trip law.
- `src/registry/`: the registry model, its invariants and their validation,
  schema migration, and the laws that every operation keeps a valid registry
  valid.
- `src/service.rs`: expiration sweeps, missing-directory observation and
  reaping, automatic cleanup, leases, reservations and releases.
- `src/socket.rs`: the port selector, a state machine that asks for one probe
  at a time and picks the lowest free ports or the lowest free block.
- `src/views.rs`, `src/output.rs`, `src/listing.rs`: `get`, `info`, `list`
  and `clean` answers and their plain text, the tables written by
  `comfy_table`.
- `src/config.rs`, `src/state.rs`, `src/paths.rs`: configuration documents,
  the state directory, path ordering and the lexical normalization of the
  missing part of a directory path.
- `src/listeners.rs`, `src/locale.rs`: listener filtering and ordering, and
  locale names.

`app/` is the program around it: argument parsing, files and the lock, socket
probes, the operating system's listener table, JSON rendering.

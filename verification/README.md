# diagram_tool

The model of a two-way-synced diagram editor: documents of nodes, edges and nested
subgraph containers; an event log that is replayed into a projection; the mutation
pipeline that checks every change; schema and semantic validation; z-ordering; snapshots
and the tail of new events.

## Layout

- `src/` is the library, written in Verus. Its own functions carry contracts and are
  proved against them; the calls into `im` and a few std functions go through small
  wrappers whose contracts are trusted, not proved (see below). The properties
  that span several functions (replay keeps edges attached and moves the revision on, resuming after a snapshot equals a full replay,
  reparenting and ungrouping never close a cycle of parents, the pipeline's phase
  machine, z-order moves, ...) are stated as proof functions next to the code they
  are about. Positions and sizes are IEEE-754 values kept as their bit patterns; the
  library compares and checks them but does no floating-point arithmetic.
- `src/collections.rs` declares the persistent maps, sets and vectors of the `im`
  crate and the trusted contracts the library relies on for each method it calls.
- `tests/` exercises the library on concrete values.
- `app/` holds what surrounds the library: floating-point geometry (bounds, world
  coordinates, marquee selection, transforms), projection hashing, the JSON encodings,
  the SQLite store and the file watchers. None of it is verified. Where it hands the
  library a value, it first checks what the library's contract asks of it: it turns
  the stored rows into plain values before the library checks revisions and
  timestamps, and it asks the library's `check_reparent` before it computes a new
  position.

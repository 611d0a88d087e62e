# mmdflux

Verified core of a Mermaid diagram layout toolkit, written in Verus.

- `src/sequence`: compiling parsed sequence-diagram statements into a
  participant/event model, with its errors.
- `src/layered`: the layered (Sugiyama) layout kernel's graph, the acyclic
  phase (DFS back-edges plus compound feedback edges), the compound nesting
  phase and its cleanup, and stage snapshots for tracing.
- `src/grid`: grid cells, Bresenham lines, grid layout bounds, edge-label
  placement footprints and corridor-aware anchors, and face attachment rules.
- `src/document.rs`, `src/commands.rs`: the semantic model of an MMDS
  document and command application on it: edge selection, dense edge ids,
  the checks each command makes, and the candidate it yields for relayout.
- `src/contracts.rs`: engine request enums.
- `app/`: running a command end to end (relayout, JSON extension values) and
  the `std::error::Error` form of the command errors.

Each public function states its result in its `ensures`; the `law_*` proof
functions state properties that relate several operations.

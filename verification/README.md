# sway

The sway node-graph engine and its MIDI front end, written in Verus: the
library in `src/` is verified, and its public functions state what they
return or change in their contracts.

## Layout

- `src/` — the verified library.
  - Graph model: `id`, `text`, `idset`, `legality`, `node`, `edge`, `path`,
    `model` (the `Graph` and its operations; paths are resolved through the
    reflection library's path parser against each part's field table), `order` (the evaluation plan a
    rebuild derives from the graph), `command` (graph commands).
  - Compiled engine: `wiring`, `stride`, `kahn` (first-in-first-out
    topological sort), `parents` (parent-chain cycle search), `structure`
    (parent and feeds validation), `compile` (slot layout, edge validation and
    per-node plans), `tick_step` (the per-node decisions of a tick),
    `display` (diagnostic text).
  - Wire-and-behaviour engine: `world_order` (the step list rebuilt from wire
    and behaviour instances).
  - Project documents and editing: `registry`, `marker`, `doc`, `reconcile`
    (which components a reload writes and removes), `editor`.
  - MIDI: `message`, `parser` (running-status byte stream parser),
    `controls` (the controller snapshot), `note` (note names and note events).
- `tests/` — tests run against the compiled library.
- `app/` — the unverified shell: reflection, RON documents, the graph command
  channel, the tick loop that performs what `tick_step` decides, draining
  received MIDI packets into the library's parser, and the floating-point
  clock. Opening
  a platform MIDI input is not part of this crate.

The outside crates are reached from `src/` only through a few trusted
declarations, each documented where it stands (`path.rs`, `registry.rs`).

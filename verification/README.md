# saddle_ai_fov

Field-of-view and perception toolkit: square-grid field of view
(recursive shadowcasting or ray casting), grid line of sight with corner
policies, and the bookkeeping of viewers that perceive cells or entities.
The library under `src/` is written in Verus; every public function carries a
contract that Verus proves.

## Layout

- `src/geometry.rs`, `src/grid.rs`: cells, grid dimensions and indexing, the
  opacity map, grid viewer configuration.
- `src/algorithms/`: the supercover line, line of sight, ray-cast and
  shadowcasting fields of view, and the opacity sources they read.
- `src/keys.rs`, `src/sorting.rs`, `src/lists.rs`: ordered keys (cells in
  row-major order, entities by index), sorting, merging and set-like list
  operations used by every published list; `src/index_order.rs`: the
  stable sort of entities by index that orders published target lists and
  the viewer budget.
- `src/state.rs`, `src/spatial.rs`: the published state of grid and spatial
  viewers (visible, remembered or explored, entered, exited) and the scan of a
  target's sample points.
- `src/layers.rs`: visibility layer masks.
- `src/awareness.rs`, `src/stealth.rs`, `src/stimulus.rs`: awareness levels,
  stealth notices, and when stimulus records are kept.
- `src/runtime.rs`: per-update decisions (dirty marking, the viewer budget,
  refreshing a grid viewer) and the runtime counters and settings.
- `app/`: the Bevy integration (components, resources, messages, systems,
  world-space geometry in floating point, and the debug overlay), which calls
  the library for every rule above.
- `tests/`: tests of the library.

Floating-point geometry (distances, cones, rectangles, occluder primitives,
stimulus gain and decay) stays in `app/`; it hands the library the facts it
decides on, such as whether a sample lies in range or whether a signal reaches
a threshold.

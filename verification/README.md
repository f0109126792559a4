# citybound

The simulation core of Citybound, a city building game, as a verified
library: every public function in `src/` carries a contract, and Verus
proves every function there against the contracts it relies on.

## Layout

- `src/kay/` — the actor runtime's data structures: ids, compact values,
  the swarm that stores actors by size class, and a compact dictionary.
- `src/economy/` — resources, the market with its offers and deals,
  households and their tasks, and the example grid of places.
- `src/lanes_and_cars/` — lane connectivity, construction and unbuilding of
  lanes, route finding by landmarks, trips, traffic signals, and planning:
  the plan being edited (with undo and redo), its materialization, and the
  signal timings of intersections (maximal cliques of compatible strokes).
- `src/simulation.rs` — timestamps and times of day.
- `app/` — a headless demonstration around the library: pulses through the
  example grid (weighing resource amounts in floating point), route sharing
  with distances in metres, signal timings from stroke directions, and the
  editing of a plan; it prints what happens. The geometry of strokes and the
  motion of cars, which rest on a geometry library not available here, are
  in neither part.
- `tests/` — tests of the library on concrete values.

Laws that span several operations (undo reverts a commit, reports of unbuilt
lanes may arrive in any order, green strokes are always compatible, every
stroke gets a green phase, ...) are stated and proved as public proof
functions next to the operations they speak of.

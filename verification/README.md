# umbra

The deterministic core of a 2D isometric RTS engine, written in Verus and
verified: fixed-point arithmetic, grid pathfinding, tile reservation, unit
movement, the fixed-tick simulation driver, button edge tracking, and the
integer side of sprite batching.

- `src/fixed.rs`: `Fixed` (8 fractional bits) and `FixedVec2`.
- `src/path.rs`: `Grid`, 8-directional A* (`astar`) proved to return a
  cheapest walk or to report that none exists, and to return exactly the
  walk its documented tie-break picks (`search_answer`); `Occupancy`; and
  `Mover`, whose `step` is specified as a state transition (`stepped`) and
  which never enters a tile another id holds.
- `src/sim.rs`: `Sim`, which applies each tick's commands in canonical
  (player, seq) order; enqueue order is proved not to matter, over one
  step and over a whole replay.
- `src/input.rs`: held/pressed/released tracking for integer button codes.
- `src/gfx.rs`: quad index buffers and buffer growth.
- `src/select.rs`: the ascending order of the ids a box selection returns.
- `src/app.rs`: window configuration.

`app/` holds what stays outside verification: the winit event loop, the
wgpu renderer, and the floating-point screen-space code (isometric
projection, camera, picking, frame pacing).

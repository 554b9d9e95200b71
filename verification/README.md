# gapbs — graph kernels and graph models, verified

The GAP benchmark kernels (BFS, SSSP, CC, TC, with BC and PageRank driven
from `app/`) and the graph representations they run on, with contracts
proved by Verus. The lock-free graph model of the suite is not part of it:
only its tag-bit helpers and coordinate computation are.

Layout:

- `src/graph.rs`, `src/types.rs` — the graph interface every model offers
  and the suite's common types.
- `src/graphmodels/` — the graph models under the suite's names: `rc`
  (unweighted), `arc` (edges carry weights) and `gc` (weights on vertices),
  all three one table of vertices keyed by id rather than reference-counted,
  shared or traced nodes; `arena` (region allocated, over
  `generational_arena`); the vertex table they share (`node`),
  breadth-first reachability (`reach`), and the pure parts of the
  lock-free model (`epoch`).
- `src/bfs.rs`, `src/sssp.rs`, `src/sssp_parts.rs`, `src/cc.rs`,
  `src/tc.rs` — the kernels and the pieces the threaded variants share;
  `src/builder.rs`, `src/generator.rs`, `src/edgefile.rs` build graphs.
- `src/gcbench.rs`, `src/treenodes.rs` — the GC benchmark's trees, in a
  forest kept in a `generational_arena` arena.
- `app/` — the benchmark driver: timing, printing, the floating-point
  kernels, the threaded variants, and the GC benchmark over reference
  counted, atomically counted, traced and cycle-collected nodes.

The tests under `tests/` run the library with the real outside crates.

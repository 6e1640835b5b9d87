# keamogetswe

Geodesics through the unit RGB cube under a friction metric, computed with
the Fast Marching Method (FMM) on an `n × n × n` grid.

## Layout

- `src/` — the verified library (Verus):
  - `grid.rs` — flat cell indexing (`z·n² + y·n + x`) and its inverse,
    clamping of points to the grid, face neighbours, finite-difference
    stencils; the index/coordinate round trip is proved.
  - `heap.rs` — a binary min-heap of `(key, cell)` entries with a proved
    heap order and multiset accounting of its contents.
  - `solver.rs` — the march state: cells are Far, Considered or Accepted,
    costs are held as order keys, `relax` offers a tentative key, and
    `accept_next` accepts the considered cell of least key, skipping stale
    queue entries.
  - `march.rs` — the full march from a source; proved to leave no cell
    considered and, with finite offers from a state in which every other
    accepted cell already has its neighbours reached (as after `Fmm::new`),
    to accept every cell of the grid.
    It returns a ghost log of the updates handed out and the replies, and
    each cell's final key is proved to be the least key offered to it.
  - `keys.rs` — order keys for costs given by their 64-bit patterns,
    proved to compare as the patterns' sign-magnitude values.
  - `space.rs`, `metric.rs`, `export.rs` — the cube container, the
    Euclidean metric and output metadata.
- `app/` — the floating-point side: metrics, the local eikonal update,
  gradient-descent path extraction, resampling by cost and JSON export.
  It maps each real cost to its order key through `keys.rs` and drives the
  verified march with a closure.
- `tests/` — tests of the library.

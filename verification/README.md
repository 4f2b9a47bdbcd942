# Maze generator

Generates mazes step by step, so that the generation can be replayed and
animated, then solves them. Three kinds of maze (perfect, imperfect with
loops, dungeon with rooms and doors) and ten corridor carvers.

The library under `src/` is written in Verus: each function's `requires` /
`ensures` clauses state what is proved of it, and Verus checks the proofs.

- `src/maze/grid.rs`: the square grid, steps that paint one square, the
  distance flood and routes between squares.
- `src/maze/walks.rs`: walks over replayed cells and what opening or
  closing a square does to them.
- `src/maze/algorithms/`: the corridor lattice and the ten carvers, braiding,
  dungeons (rooms, regions, doors, pruning), and the facts they share:
  `spanning.rs` (tree growth), `counting.rs` (squares a tree opens),
  `connectivity.rs` (what keeps a grid in one piece).
- `src/maze/solve.rs`, `stats.rs`, `playback.rs`: shortest path, shape
  figures, and replaying a generation up to any step.
- `src/random.rs`: the only calls into `rand`, each with the contract its
  source supports.
- `src/seed.rs`: the seed typed by the user, hashed with FNV-1a.
- `src/tiles.rs`: which of the five tiles each kind of square is drawn with.
- `app/`: the desktop viewer (eframe) and PNG export (image), built on the
  library.

`tests/` runs the library with the real random number generator.

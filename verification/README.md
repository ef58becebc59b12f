# rg

The integer core of a voxel-world game, verified with Verus: grids and
their operators, chunk caches, behavior trees and their built-in actions,
navigation-mesh generation (cell connections, marching-squares boundaries,
chaining of boundary segments, links between triangles), progress counters,
collision layers, noise hashing and seeding, grid blobs (zstd frames) and a
few small decisions of the developer overlay and the texture loader.

- `src/` — the verified library (crate `rg`).
- `tests/` — tests of the library on concrete values.
- `app/` — ordinary Rust around the library: everything on floating point
  (float grids, blurs, distance transforms, noise, Poisson-disc sampling,
  progress estimates, triangulation with spade), serde and RON loading, and a
  small headless driver.

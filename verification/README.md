# fire_sim_core

Integer core of a bushfire simulation engine, written in Verus. Each public
function states its behaviour in `requires` / `ensures` clauses that Verus
proves; the public `proof fn`s state properties that span several calls.

## Layout

- `src/` — the verified library:
  - `spatial.rs`: Morton codes, neighbour offsets and a spatial hash of
    grid cells (backed by `rustc_hash::FxHashMap`);
  - `grid.rs`: indexing of the 3D atmospheric grid, tracking of active
    cells, the cells reached by radiation, diffusion and rising plumes;
  - `raster.rs`: indexing of the 2D level-set rasters, fire-front blocks,
    compute dispatch sizes and the fixed-point level-set arithmetic;
  - `profiler.rs`: per-frame dispatch timing and adaptive quality presets;
  - `calendar.rs`: day of year, seasons, climate pattern and heatwaves;
  - `fuel.rs`: fuel type codes and the code-to-fuel mapping of fuel maps;
  - `noise.rs`: the integer lattice hashes behind the procedural noise;
  - `fxmap.rs`: the trusted wrappers around the hash map methods used.
- `tests/` — tests of the library on concrete values.
- `app/` — the floating-point layer (world coordinates, temperatures,
  interpolation, timing in milliseconds) built on the library.

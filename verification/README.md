# rsift_opt_gfx

CPU-side building blocks of a voxel renderer, written in Verus: each
function states its behaviour in `requires` / `ensures` and Verus proves it.

- `src/` is the verified library: section run-length and hybrid
  compression, region files, sparse voxel octrees and DAGs, vertex cache
  ordering, residency tables (sparse textures, virtual atlases, vertex
  pools), visibility flood fill, screen-tile binning of chunks and lights,
  a spatial hash over integer cells, bit kernels, frame arenas and the
  other integer logic of the renderer.
- `tests/` exercises the library on concrete values.
- `app/` holds what the library does not: floating-point shading and
  geometry helpers, process-wide counters, and `std::io` adapters. It calls
  the library and is not verified.

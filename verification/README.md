# roxlap_core

The core of a voxel engine, verified with Verus: what a ray decides in each
column or cell that it passes, how columns are stored and edited, and what
ends up in the frame.

## Layout

- `src/`: the library. Every function states what it returns or changes, and
  laws that relate several functions stand beside them as proof functions.
  - `slab`, `edit`, `column_walk`, `grid_view`, `vxl`: voxel columns as chains
    of slabs, their solid runs, edits of runs, and grids of chunks.
  - `grouscan`, `cf_narrow`, `rasterizer`, `sky`: the column scan of one ray,
    a state machine over a stack of view segments.
  - `dda`: the cell walk of one ray, with the maps of bricks that let it skip
    empty space.
  - `dda_sprite`, `kv6`, `voxel_clip`, `material`: sprites as runs of voxels,
    and how rays and frames pass through them.
  - `meltsphere`, `powers`, `world_query`: cutting a sphere out of the world.
  - `drawtile`, `ptfaces16`, `kfa_draw`, `gline`, `opticast`,
    `opticast_prelude`, `engine`: tiles, cube faces, limb order, ray set-up
    and frame set-up.
- `app/`: ordinary Rust around the library, for what is floating point:
  cameras, projections, the numbers along a ray, and threads.
- `tests/`: tests of the library.

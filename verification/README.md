# tilekit

Building blocks for tile-based strategy maps drawn in a terminal, with their
behaviour stated as contracts and proved with Verus.

## Layout

- `src/` — the verified library.
  - `geom` — square, isometric, staggered and hex projections between map
    tiles and character cells, hex distance, rings, spirals and lines.
  - `fov` — recursive shadowcasting on a square grid, line-of-sight field of
    view on a hex grid, and a fog-of-war map.
  - `path` — least-cost routing with configurable diagonals and a movement
    budget, and the set of tiles reachable within a budget.
  - `autotile` — neighbour masks, blob and box-drawing tile selection, and
    marching squares.
  - `camera` — a clamped viewport over a map.
  - `glyphs` — terrain and marker glyphs, braille and block-element canvases.
  - `noise` — integer hashing and a small deterministic random generator.
  - `palette` — colours, factions, times of day and seasons.
  - `world` — biomes, sites, names, and the integer stages of world
    generation: provinces, settlements, landmarks, roads and rivers.
- `tests/` — runtime tests of the library.
- `app/` — the floating-point parts (noise fields, colour ramps, lighting,
  climate) and the world generator that drives the verified stages.

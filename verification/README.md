# hyperbolic_explorer

A first-person walk through a {4,5} tiling of hyperbolic space (four-sided
tiles, five around every vertex), rendered with the hyperboloid model in bevy.

- `src/` is the verified core, written in Verus:
  - `discovery`: breadth-first discovery of the floor tiles (queue, rings,
    tile cap, what each edge led to) as a state machine driven by the
    caller's geometry, with proofs that a tile's ring is its least number of
    steps from the origin and that discovery below the cap is complete;
  - `coloring`: the greedy coloring of the tile adjacency, with proofs that it
    is proper, greedy, bounded by the tile degree and needs three colors
    around a vertex;
  - `mesh`: triangle-fan assembly of polygons, bordered tiles and pillars,
    and the flat grid's quads, keeping every index within the vertex list;
  - `layout`: pillar and palette rules, and the cells of the flat comparison
    grid;
  - `screenshot`: the frame schedule of the headless screenshot run.
- `app/` is the bevy program: the floating-point Lorentz geometry, the shader
  material, input handling and rendering, calling the library for every
  decision above.
- `tests/` exercises the library, including the full tiling with bevy's math
  types.

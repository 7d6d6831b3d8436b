# hedron

Discrete data structures and index logic for 3D modelling and procedural
generation, verified with Verus.

- `src/` is the verified library:
  - `data/`: grids (`Grid`, `Grid2`, `GridTri`) and the `Pool`, a vector
    with stable pointers, deletion and compaction.
  - `math/`: binomial coefficients and Pascal's triangle, factorials,
    wrapping and clamping, and the `Organic` follower.
  - `solid/`: the half-edge `Polyhedron` (loops, disks, edge insertion,
    splitting, capping, deletion, random quads, compaction and joining), the
    index logic of triangle meshes (edges, naked edges, cleaning, dominoes, conversions
    between the linear, uniform and hetero indexing models) and of the mesh
    constructors and modelling operations (fans, extrusion, lofts, double
    sided meshes), and the line grammar of OBJ text.
  - `raster/`, `lines/`: grid circles and box wireframes.
- `tests/` runs the library on concrete values.
- `app/` holds the float geometry around the library (vector angles,
  plane cuts, polygon areas, triangulation, reading OBJ coordinates) and
  calls into it.

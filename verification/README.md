# sphere_world

Integer geometry of a sphere built from a subdivided icosahedron, verified with Verus.

A chunk of the sphere is a geodesic triangle; points on it are addressed by grid
coordinates (`BaryIterative`: three weights over a common denominator). The library
proves what can be said of those coordinates and of the decisions taken with them:

- `src/ratio.rs` — fractions in lowest terms (`num::rational::Ratio` does the reducing).
- `src/bary_iterative.rs` — grid coordinates: corners, edges, interpolation, up/down
  sampling, moves, and the mesh slot of a point.
- `src/mesh.rs` — the base mesh of a chunk: slot layout (a bijection between grid
  points and vertex slots) and the triangle list.
- `src/subdivision.rs` — the discrete steps of locating a point: the edge-plane table,
  corner and edge weights, and lifting a sub-triangle coordinate to its parent.
- `src/triangle.rs` — classifying a point from its coordinate, and relating two
  chunks from where the vertices of one lie on the other.
- `src/chunks.rs` — the twenty root chunks and their sibling table (from the
  `hexasphere` icosahedron), and the breadth-first adjacency search.
- `src/stitch.rs` — how the edges and corners of a chunk are stitched onto a coarser
  neighbour's mesh.

`app/` holds the floating-point side: vectors on the sphere (`glam`), locating a
point by plane tests and slerps, mesh positions, noise (`noise`, `serde_json`), and a
plain-data chunk tree that drives the library.

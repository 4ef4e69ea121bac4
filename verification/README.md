# raytrace

A CPU ray tracer ("Ray Tracing in One Weekend" style) whose ordering, bounding
and scene-partitioning logic is a Verus-verified library.

- `src/` — the verified library. Coordinates and times are `f64` values held by
  their IEEE 754 encoding (`Scalar`); comparisons on them are specified and
  proved against the IEEE rules (`<`, `<=`, and the `total_cmp` order).
  - `scalar.rs` — encoded reals and their comparisons.
  - `interval.rs` — closed intervals; empty, universal, enclosing, membership.
  - `bound.rs` — axis-aligned bounding boxes; corners, enclosing boxes, and
    deciding when a ray is inside a box from its slab-crossing times.
  - `hit.rs` — which face of a surface a ray hits.
  - `bvh.rs` — the bounding volume hierarchy: merge-sorting objects by their
    boxes, splitting them in half, and finding the earliest hit in the tree.
  - `scene.rs` — a flat scene list with its running bounding box.
  - `nearest.rs` — the laws that casting a ray over a list or a tree finds
    the nearest collision among all objects.
- `app/` — the renderer: vectors, rays, materials, primitives, the camera and
  image output, all of which are floating-point arithmetic, randomness or I/O.
- `tests/` — tests of the library on concrete values.

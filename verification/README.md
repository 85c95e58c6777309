# raytracer

A sphere ray tracer whose scene bookkeeping and bounding-volume hierarchies
are verified with Verus.

- `src/` is the verified library:
  - `bvh/object_range.rs`: runs of object indices and their halving;
  - `bvh/split.rs`: building a flattened hierarchy in pre-order (`split`),
    setting the links that let a traversal skip a missed subtree
    (`skip_pass`), and the laws these establish;
  - `bvh/world.rs`: a world over a flattened hierarchy, its one-step
    traversal (`step`) and nearest-hit query (`hit`);
  - `bvh/nearest.rs`: that culling by boxes never loses the nearest hit,
    under stated laws of the ray test;
  - `bvh.rs`: the tree-shaped hierarchy, and the traits through which the
    geometry (boxes, ordering, ray tests) is supplied;
  - `world.rs`, `material.rs`: spheres and materials of a scene;
  - `controls.rs`: what the keyboard and window events do;
  - `rng.rs`: random bits for floats in `[0, 1)`.
  The hierarchies are generic over the box, sphere and material types, since
  the geometry is floating point and stays outside the verified code. The
  traits `Bounded` and `Probe` name that geometry with spec functions; their
  methods promise only that they compute what those functions name (a box,
  a ray test, a comparison as a function of its arguments) and that a sort
  permutes its run and orders it. The nearest-hit queries are proved against
  these names; where a law needs more of the geometry (that a run's hit is
  the nearest of its spheres' hits, that a hit sphere's boxes are met, that a
  box depends only on the objects it holds), the law states it as a
  hypothesis.
- `app/` is the program: vectors, rays, spheres, materials, the camera and the
  window, with the floating-point geometry behind the library's traits.
- `tests/` exercise the library.

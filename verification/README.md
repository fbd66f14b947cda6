# anyangle

Any-angle path finding on layered navigation meshes, verified with Verus.

- `src/` is the library, every function of it verified:
  - `layer`, `flat::layer`: layer identifiers and sets of layers;
  - `math`: integer geometry (orientation, triangle areas, integer square roots) and the
    diagonal taxicab norm with its order;
  - `funnel`: the simple stupid funnel algorithm;
  - `flat::refine`: splitting faces and obstacles along shapes and cutting them into convex
    pieces (the polygon operations are those of `i_overlay` and `i_triangle`);
  - `flat::tesselation`: tesselations that change as shapes are allocated in them, and
    their frozen form, with numbered vertices and faces;
  - `flat::astar`: the A* search over the faces of a layered complex, funnelling the path
    it finds;
  - `navmesh`, `delaunay`, `mlfa`: Delaunay based navigation meshes, one per layer, stitched
    together;
  - `complex`: one triangulation for all layers;
  - `spatial`: an index of bounding boxes, kept in an `rstar` R*-tree.
- `tests/` runs the library on concrete values.
- `app/` is a demo program: it reads a demo file, builds a navigation mesh around its
  obstacles, searches a path and draws it with `macroquad`.

Coordinates are integers throughout (`i32` points, `i64`/`i128` for products): meshes over
floating-point coordinates, and the stitching between their layers, are not offered.

# egui-wasm-shape-lab

A shape lab for the browser: egui draws a panel with an outer tab that can be
dragged, rotated and docked; the two outlines are merged by a Boolean union and
every corner of the result is rounded with a tangent fillet.

- `src/` is the verified library: the decisions of the geometry that need no
  floating point. `topology` keeps the split boundary pieces unique and stitches
  them into closed contours; `ring` cleans outlines of degenerate vertices;
  `mesh` triangulates outlines by ear clipping and holds the point-in-triangle
  rule; `stats` counts what a merge found; `bounds` grows a bounding box with
  egui's rectangle; `wire` and `controls` hold the rules of the page interface
  and of the tab's controls. Float tests that these decisions need are handed in
  as closures or as precomputed keys.
- `app/` is the egui front end and the floating-point geometry around the
  library: splitting edges, probing the union, turn angles, fillet solving, arc
  sampling, layout and styling, and the exported functions the page calls.
- `tests/` runs the library on concrete shapes.

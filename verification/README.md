# flowpaint

The verified core of FlowPaint, a paint-your-own-geometry fluid-flow
sandbox: the sketch model behind the editor and the integer grid logic
behind the solver's geometry layers, written in Verus and proved against
their contracts.

## Layout

- `src/geometry.rs`: grid rectangles (the damage regions) and the solver
  grid's cell layers, including clearing a damaged region and painting
  the wind-tunnel bands.
- `src/flood.rs`: the paint bucket's 4-connected flood fill and the walk
  that traces a filled region's outer contour.
- `src/model.rs`: the sketch model: the object list in paint order, the
  group tree and its queries, the undo/redo history and its round-trip
  laws, and the acyclicity of parent links under `reparent`.
- `src/selection.rs`: the editor selection, the tree-aware readings of it
  (editable set, transform targets, click targets, deletion order) and
  z-order moves.
- `src/scene.rs`: scene-file version routing and the repair of a loaded
  object tree's parent links.
- `src/probes.rs`: the probe store.
- `src/settings.rs`: the small enumerations shared by the solver, the
  renderer and the UI, with their stable file and preference encodings.
- `app/`: a command-line front end that reads and writes scene files
  (serde/bincode), holds the floating-point parts of an object (shapes,
  transforms, rasterizers, hit and band tests, the eraser's clipping and
  polygon subtraction), the airfoil and nozzle generators and the unit
  formatters, and drives the library: it edits, groups, erases, undoes
  and redoes through the library's recorded operations.
- `tests/`: scenario tests for the library.

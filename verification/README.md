# fractal_wizard

An interactive editor of iterated-function-system fractals (figures, patterns,
initial placements, generation, box-counting dimension, random walks and
heat maps).

- `src/` is the verified library: the topology of polygons and free shapes,
  the bounded undo history, the removal of trailing commas from figure files
  and the rebuilding of a figure from what its file holds,
  list selection editing, the point store and vertex regrouping of the
  generator, the depth-capped expansion of branches, the box counts and the
  choice of the scaling region, the walk bookkeeping, the visit counts of the
  heat maps, the spatial index of the canvas and the animation player.
- `app/` is the program around it: the egui interface, file dialogs, and
  everything that computes in floating point (placement of copies, camera,
  logarithmic fits, colors, distance weights).
- `tests/` exercises the library on concrete values.

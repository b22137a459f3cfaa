# world_tiling

Generates a block world tile by tile. The area to generate is split into square
tiles, the map elements are sorted into the tiles they touch, and a run works
through the tiles: it opens an editor, lets the generators draw the elements,
lays the ground, writes the region files and keeps a record of the tiles that
are done, so that an interrupted run can be resumed.

* `src/` is the verified library. It computes the tiles, the buckets of
  elements, the generator of each element, the ground of a column, the regions
  of a tile, and the tasks of a run in their order. The files named `*_laws.rs`
  state what holds of these as a whole.
* `app/` performs the tasks: it reads and writes the JSON files, shows the
  progress, takes the region locks and calls the world's editor and generators.
* `tests/` runs the library on concrete values.

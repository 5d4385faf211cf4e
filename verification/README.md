# Point Tiler

Converts point clouds into 3D Tiles.

- `src/` is the library, verified with Verus. It reads PLY headers and vertex
  records, checks the options of a conversion, and builds the tile tree of the
  Cartesian workflow: counts, leaves, runs, thinning, bounds and the tileset.
- `app/` is the program around it: the command line, the files, and the
  floating-point geometry.
- `tests/` runs the library.

The library holds floating-point numbers as the bits of their binary64 format
(`binary64::Real`). Their values are stated as integers, in units of 2^-1074.

Work that needs files is split in two: the library decides and the program acts.
`ply::reader::PlyPointReader` takes events, such as a line that was read, and
answers with what to do next.

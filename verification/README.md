# viewshed

Line-of-sight analysis over elevation rasters, verified with Verus.

- `src/` is the verified library: row-major indexing of rasters (`grid`),
  Bresenham lines (`line`), midpoint circles put in drawing order (`circle`),
  the visibility decision along a line of sight, and the viewshed that marks
  every line from the origin to a circle's outline into the result raster
  (`sight`). Each public function carries a contract, and the
  laws the code keeps (round trips between points and indices, line endpoints
  and steps, circle symmetry, the last line to reach a pixel deciding it) are proof functions.
- `app/` is the command-line program around it: reading height files, the
  floating-point slope and interpolation arithmetic, and writing PNG images.

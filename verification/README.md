# termrender

A character-cell rasteriser for ANSI terminals, verified with Verus.

Drawing happens in a bit buffer with two cell rows per terminal row
(`Renderer::b_buff`): lines (Bresenham), triangles and discs light cells.
`bits_to_px` folds each pair of cell rows into one row of pixels that show the
upper half-block glyph with the upper cell's colour as foreground and the lower
cell's as background; `draw_string` writes text pixels; `px_to_string` renders
the pixels as one string of ANSI 256-colour escape sequences.

- `src/color.rs`: the sixteen-colour palette and its escape sequences.
- `src/pixel.rs`: cells, pixels and the text a frame renders to.
- `src/grid.rs`: row-major grid arithmetic and sweep bounds.
- `src/line.rs`: the points a line plots, in closed form, and what drawing them does.
- `src/fold.rs`: folding the bit buffer into pixels.
- `src/renderer.rs`: the renderer and its operations, each with its contract.
- `src/laws.rs`: properties that span operations.
- `app/`: the demo program (a rotating wire-frame cube): floating-point
  geometry, projection and the console, which stay outside the verified library.

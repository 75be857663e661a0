# spaceship

A small software renderer: a window shows orbit rings around a star and a
ship that the camera follows (W/S move, A/D turn, arrows pitch, Q/E climb).

- `src/` is the verified library, checked with Verus:
  - `line.rs`: Bresenham's segment walk, clipped to a frame, with its laws
    (end points, one pixel per step along the longer axis, neighbouring
    pixels, half-pixel closeness to the ideal segment, clipping).
  - `triangle.rs`: the screen-clamped bounding box of a triangle, the
    row-major pixel scan and the choice of pixels tested against a triangle.
  - `pipeline.rs`: grouping vertices into triangles and keeping the
    fragments that land on the frame.
- `app/` is the program: window and keyboard (minifb), matrices and all
  floating-point work (nalgebra-glm), coverage tests, shading, depth buffer.
- `tests/` runs the library on concrete inputs.

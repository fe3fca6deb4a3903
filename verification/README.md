# fire_cursor

A transparent overlay that hides the system cursor and draws a fire-like particle trail where the
mouse is, with its logic verified in Verus.

- `src/` is the verified library: the particles, the software renderer with its additive blending
  and dirty rectangle, the overlay's geometry and bitmap life cycle, the cursor hiders and the frame
  pacing. `gradient`, `motion` and `blending` hold what follows for colors, trails and frames when
  every operation rounds to nearest.
- `app/` is the Windows program around it: the Win32 and winit calls, the random numbers and the
  hardware's floating-point operations.
- `tests/` runs the library on hardware floating point.

Floating-point numbers appear in `src/` as bit patterns (`binary32`). Comparing them and rounding
them to integers is verified against their exact values. The seven elementary operations
(`arithmetic`) are passed in by the caller, and every formula is stated over them.

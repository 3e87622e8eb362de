# color_convert

Conversion of YCbCr planes, as a HEVC decoder leaves them, to interleaved RGB, written and
verified in Verus.

- `src/` is the library. Every conversion states in its contract the exact bytes that it
  stores, and every kernel of a conversion (pixel by pixel, or in groups of pixels) is
  proved against the same statement. `src/laws.rs` holds what follows for the conversions
  as a whole.
- `app/` evaluates the generic conversion matrix, which works on floating-point numbers, and
  checks the preconditions of the library at run time.
- `tests/` runs the library on concrete pictures.

Which kernel runs is decided by the instruction sets that the `archmage` crate detects. The
group kernels are written on arrays of lanes, without instruction-set intrinsics.

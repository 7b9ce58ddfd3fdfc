# pretext

DOM-free text measurement and line breaking, verified with Verus.

Text is laid out in two phases. `prepare` analyzes a text into segments and has a
backend measure each segment once. `layout` breaks the prepared text into lines
at any width; it is arithmetic over the measured widths, so reflow is cheap.

## Layout of the crate

- `src/` is the library. Every function states what it does in its contract, and
  Verus proves it. It is generic over the arithmetic of widths (`scalar`);
  `layout_unit` is a fixed-point instance of it, whose sums are exact.
  - `unicode`, `segmentation`, `analysis`: characters, clusters, segments
  - `backend`: font specifications and measurement
  - `prepare`, `line_break`, `layout`: the two phases
  - `inline_flow`, `gpu_layout`, `bidi`: mixed runs, glyph instances, levels
  - `session`: a bounded pool of prepared text behind handles
  - the modules that end in `_laws`: what holds of the library as a whole
- `tests/` runs the library, in floating-point pixels and in fixed-point layout units.
- `app/` is ordinary Rust around the library: floating-point pixels, native fonts,
  the browser's canvas and the JavaScript surface.

## What is trusted

The functions marked `external_body`, and the few specifications of standard
library functions, are believed. Each says in its comment which function it
calls and what it claims of it.

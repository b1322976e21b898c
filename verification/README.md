# bmpf2fnt

Reads `.bmpf` bitmap font files (Stranded II / Blitz3D) and turns a font and
its texture into a BMFont (AngelCode) `.fnt` text description. The library is
written in Verus: every function carries a contract that Verus proves,
but for one small trusted wrapper that asks the `image` crate for the text
of its error.

Layout of `src/`:

- `bmpf.rs` – the `.bmpf` container: magic header, optional metadata block,
  3-byte glyph records up to the terminator; `BmpfFont::parse` and the
  round-trip law of the format.
- `raster.rs` – the image model: background pixels (transparent or magenta
  colour key), 4-neighbours, paths and connectivity.
- `flood.rs` – marking one 4-connected region with an explicit stack.
- `scan.rs` – all regions of an image, as bounding boxes in stable `(x, y)`
  order (left to right, then top to bottom), with the laws that they
  partition the glyph pixels and come out sorted.
- `atlas.rs` – matching regions to font characters (`build_font_atlas`).
- `fnt.rs`, `text.rs` – the `.fnt` text and decimal formatting.
- `error.rs` – `BmpfError`.

`app/` holds the public shapes that Verus cannot hold: glyph regions with an
`f32` advance, and `Display`/`Error` for the error type.

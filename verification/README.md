# bwl_meta

Brood War HUD metadata extraction with machine-checked contracts.

The library reads the game clock and both players' supply counters from
thresholded crops of the broadcast HUD, assembles per-frame readings, cleans
them for temporal consistency, and keeps the bookkeeping of gold-set
evaluation. The functions in `src/` are verified with Verus. Four trusted
items are taken on faith: the wrappers `resize_nearest` and `crop_pixels` in
`src/pixels.rs`, which call the `image` crate's `imageops::resize` (nearest
filter) and `imageops::crop_imm`; `resize_nearest_pixels`, the name for what
that resize returns; and the specification of `String::push` in
`src/text.rs`.

Layout:

- `src/text.rs` — splitting, trimming, joining and `str::parse`-compatible
  decimal parsing over character sequences.
- `src/pixels.rs` — the grayscale raster type and the two `image` crate
  operations used (crop, nearest-neighbour resize).
- `src/segment.rs` — splitting a crop into glyphs by runs of inked columns.
- `src/templates.rs` — built-in glyph patterns, template rendering and
  normalization, template sets and merging of real templates.
- `src/recognizer.rs` — glyph scoring (agreeing pixels out of 240), ranking,
  and timestamp / supply decoding.
- `src/lib.rs` — timestamps, frame assembly, consistency cleanup, and the
  segment extraction driver (frame decoding and HUD cropping are supplied by
  the caller; recognition happens in the library).
- `src/helpers.rs` — supply consistency on normalized readings.
- `src/eval.rs` — gold-set comparison and reporting text.
- `app/` — the command line program: configuration and gold-set files,
  video download and decoding, HUD preprocessing, progress bars and output.

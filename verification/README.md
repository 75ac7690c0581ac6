# hp_core

The verified core of a pipeline that turns an Illustrator house drawing
into a jigsaw-puzzle asset bundle: layer parsing, brick/piece bookkeeping,
PDF content-stream analysis and optional-content rewriting, raster
decoding, coverage detection and PSD encoding. Everything in `src/` is
written in Verus and proved against its contracts.

## Layout

- `src/` — the verified library.
  - `types.rs` — bricks, pieces and their record defaults.
  - `raster.rs` — RGBA rasters and pixel addressing.
  - `text.rs` — lossy UTF-8 text, line splitting and trimming.
  - `ai_data.rs` — the embedded PostScript: Zstandard frame recovery,
    the `%AI5_BeginLayer` layer tree, gradient detection, bbox dedup.
  - `puzzle.rs` — piece bounding boxes, piece assembly and the piece
    graph that area-balanced merging drives.
  - `ocg.rs` — content-stream operators, the brick-block walk, per-brick
    OCG naming and assignment, and the rewrite plan.
  - `marker_balance.rs` — the inserted `BDC`/`EMC` scopes are balanced.
  - `render.rs` — bleed offset, alpha bounding boxes, embedded raster
    extraction and covered-brick detection.
  - `image_decode.rs` — Flate/PNG-predictor image XObjects, indexed
    palettes and soft masks to RGBA.
  - `pixels.rs` — PNG row reconstruction and source-over blending.
  - `psd.rs` — layered PSD encoding.
  - `version.rs` — release tags and the newer-version check.
  - `edges.rs` — quantised edge keys.
- `tests/` — executable tests against the compiled library.
- `app/` — the unverified shell: PDF reading and writing with `lopdf`,
  image and file I/O, and the floating-point parts: the merge driver,
  bezier outlines and their merging, polygon adjacency and areas, vector
  path parsing, block geometry and block-to-brick matching, raster
  compositing, the house description and the stability simulation.

Calls into outside crates (`memchr`, `regex`, `zstd`, `flate2`, and the
standard library's UTF-8 decoding) sit behind small trusted wrappers whose
contracts name what the call returns.

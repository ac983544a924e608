# hap_wasm

Scroll-scrubbed video for the web, in two parts:

- a reader for HAP movies in QuickTime containers, held in memory: it walks
  the atom tree (`moov` > `trak` > `mdia` > `minf` > `stbl`) to the first
  track with a codec and sample sizes, places each frame through the
  sample-to-chunk runs, and decodes it to GPU texture data with `hap-parser`;
- the arithmetic of the `video-to-webp` converter: target dimensions, byte
  counts for people, the fields of an `ffprobe` line, and counting frames.

Layout:

- `src/` is the library, verified with Verus: `bytes` (big-endian fields),
  `tables` (leaf atoms), `movie` (the atom tree), `reader` (frames),
  `hapframe` (whether a frame's declared lengths fit the machine's
  `usize` and `isize` before it is handed to the decoder), `rounding`
  (`f32` and `f64` rounding in integers), `webgl`, `text`, `convert`.
- `tests/` runs it on built movies and concrete values.
- `app/` is the command-line converter (`main.rs`) and, for WebAssembly
  targets, the `wasm-bindgen` bindings (`web.rs`).

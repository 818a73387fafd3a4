# pngoptim

A lossy PNG optimizer: it reduces an image to a palette of at most 256
colors, writes it as an indexed PNG, and optimizes the structure of animated
PNGs.

The library under `src/` is verified with Verus; its contracts state what
each function returns:

- `apng` — frame validation, frame composition (dispose and blend
  operations), duplicate-frame folding, frame-rectangle minimization, delay
  arithmetic, and the checks an APNG must pass before it is written. Laws
  proved: folding does not change what the animation shows, whatever the
  dispose operations (a frame is folded into the one before it only when
  both show the same image and leave the same canvas behind); a folded
  frame lasts as long as the run of duplicates it absorbs; and minimizing
  frame rectangles does not change what the animation shows either (each
  frame is cut against the canvas it is actually drawn on, and a frame that
  changes nothing redraws one pixel as it is).
  The aggressive mode's rollback rule (`keep_minimized`) is here too.
- `apng_read` — what decoding an animated PNG decides once the `png` reader
  has handed over the header and frames: not animated, the first read or
  format problem in reading order, or the image built frame by frame.
- `pipeline` — the indexed PNG encoder: bit depth choice, bit packing (with
  a proof that every index can be read back), chunk framing, metadata and
  text chunks, compression at two memory levels keeping the smaller file,
  palette helpers, color-management decisions, the acceptance gates, and
  PNG decoding to RGBA through the `image` crate; stripping drops exactly
  the metadata.
- `cli` — the `--quality` syntax, the APNG mode and the output target.
- `quality`, `quant`, `palette_quant` — speed presets, uniform quantization
  levels and snapping (proved idempotent), and the integer parts of the palette quantizer
  (posterization, clusters, the color count that the histogram starts from
  and its re-keying under posterization, the layout of histogram items by
  cluster, the partition step of the median cut, palette compaction,
  search effort, 3x3 and box filters).
  Laws proved: every pixel is counted in exactly one histogram entry, the
  cluster layout gives each item a slot of its own inside its cluster's
  range, and compacting the palette keeps the color of every pixel whose
  entry is used.
- `error`, `text`, `robustness` — the error type with its exit codes and
  messages, decimal formatting, and corpus mutation for robustness tests.

Calls into `crc32fast`, `zlib-rs`, `rayon`, `image` and std's string
functions sit behind small trusted wrappers whose contracts say what those
functions do.

`app/` is the command-line program: argument parsing with `clap`, file and
stream I/O, the `png` reader and writer sessions (ancillary chunks, APNG
frames handed to `apng_read`, the APNG writer), ICC
color conversion (`lcms2`), and the floating-point palette quantizer and
quality metrics. `tests/` exercises the library.

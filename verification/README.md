# pool

The logic of the pool motion-graphics editor, written in Verus with its
contracts proved: the timeline model and its validation, keyframe lookup and
loop modes, the compositing order of a scene, AviUtl script import, the
plugin protocol's decisions, ffmpeg and Slang command lines, shader cache
keys, frame readback, PNG encoding and the decoded-frame cache.

## Layout

- `src/` — the verified library.
  - `model.rs` — projects, scenes, layers, objects; validation.
  - `keyframes.rs` — parameters, loop tables, keyframe ordering and evaluation.
  - `order.rs` — stable ordering by integer keys.
  - `player.rs` — the playback clock.
  - `composite.rs` — draw and filter order, duplicator copies.
  - `render.rs` — readback, PNG, text bitmaps, font choice, the frame cache.
  - `export.rs` — preview and export sizes, frame counts, file names.
  - `aviutl.rs` — script decoding and parsing, filter objects.
  - `plugin.rs` — manifests, replies, frame files, installing.
  - `media.rs` — tool lookup, rates, probe summaries, codec choice, arguments.
  - `slang.rs` — SHA-256 cache keys, compiler arguments and version output.
  - `text.rs` — characters, whitespace, lines, decimals.
- `tests/` — tests of the library.
- `app/` — the input and output around it: JSON files, processes, fonts,
  pictures, and the floating-point parts of evaluation and layout.

Real numbers in the model are held as IEEE-754 bit patterns; the library
stores and compares them, and `app/` does arithmetic on them.

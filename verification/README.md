# qualetize_gui

The verified core of a tile-based palette quantizer for retro console
graphics: images are split into tiles, every tile picks one of a few small
palettes, and every color is snapped to the levels the target hardware can
show.

`src/` is the library, written in Verus; every function in it carries a
contract that Verus proves. It holds:

- `formats`, `settings`, `levels`: the target format, the presets, the
  per-channel level lists and the settings repair applied to files loaded
  from disk.
- `engine`, `source_tiles`, `palette_output`, `rng`: what the quantization
  engines share: input checks, the tiles and their colors, the layout of an
  indexed result, and the seeded pixel order.
- `indexed`, `tiles`, `tile_reduce`, `forest`: indexed images, palette
  reordering, tile counting and the integer parts of tile reduction.
- `export`: BMP and indexed PNG encoding.
- `results`, `thumbnail`, `history`, `settings_history`: the list of stored
  results, their thumbnails, and undo / redo over the settings.
- `requests`, `worker`, `run_context`, `time`, `text`: messages between the
  UI, the workers and the engines.

`app/` is a small command line front end around the library: image file
input and output, and the floating point parts of the engines (color
distances, k-means palette search, palette sorting keys), which Verus does
not reason about.

`tests/` runs the library on concrete inputs.

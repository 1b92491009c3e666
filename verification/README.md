# neuraltype

NeuralType draws type with models: a font is a network that renders each
letter in its context. This crate holds the engine's exact parts as a
verified library (`src/`), and its floating-point and I/O edges as
ordinary Rust (`app/`).

Library modules:

- `art`, `line`, `shape`: the square-Kufic teacher (letter art, dots,
  kashida), Arabic joining and visual order, pen arithmetic and line
  compositing.
- `trace`, `degree`, `chain`: tracing occupancy grids into closed
  outline loops (every exposed edge once, sharpest right turn first).
- `contour`: marching-squares cell cases and chaining of contour
  segments into paths.
- `clusters`, `shaping`, `corpus`: cluster segmentation and context
  features, harfrust shaping of the corpus into cluster records, the
  corpus itself.
- `pathscan`, `shapes`, `sheet`, `canvas`: the distillation stages'
  outline text, shape numbering and statistics, proof sheets and
  comparison figures.
- `training`: the trainers' shuffle, hold-out split, length order,
  batch padding, causal mask, context deduplication and displacement
  table.
- `container`, `export`, `tokens`: the `.ntf` container, tensor layout
  and names, reading a checkpoint's architecture and weights for export
  (through safetensors), and the outline-token decoder.
- `runlog`, `text`, `caret`: training-log reading, text utilities,
  and the caret/selection bookkeeping of the web demo.

`app/` holds the model inference, rasterization and distance fields,
file and terminal I/O (the training dashboard), and JSON.

# acme-native

The verified core of a declarative desktop UI runtime, written in Verus.

- `src/` is the library; every function in it is verified against its
  contract. It holds the retained widget tree and its keyed
  reconciliation, focus and pointer-capture management, the event-dispatch
  order, the editable text-field state machine with undo/redo and
  grapheme/word-aware editing, the glyph atlas and glyph preparation, the
  batching of draw commands, the per-frame planning of atlas uploads, the
  tween clock and animation engine, and the renderer's surface-state
  decisions.
- `app/` is ordinary Rust around it: floating-point geometry, colours,
  themes and styles, flexbox layout, text shaping and text-field drawing,
  the scene and frame models, the system clipboard, developer metrics, and
  error types with `std::error::Error`.
- `tests/` runs the library on concrete inputs.

# face_crop_forge

The rules behind Face Crop Forge, a browser tool that detects faces and crops
them, as a Verus-verified Rust library.

- `src/` — the verified library: text helpers (`text`), an exact model of the
  IEEE-754 arithmetic its formulas use (`binary_float`), UI helpers
  (`base_ui`), output naming and statistics (`base_core`), runtime rules
  (`base_runtime`), the batch workspace, work plans, lazy loading and
  statistics (`batch_core`), progress and ZIP naming (`batch_export`), the
  decisions of a processing run (`batch_run`), page routing, theme storage and
  saved-settings names (`navigation`), camera and crop-canvas decisions
  (`media`), and ordered string sequences (`ordered`).
- `tests/` — tests of the library.
- `app/` — the browser side: local storage, DOM and media calls, and the
  floating-point crop geometry.

# pixel_paint_rs

A small grid-based drawing program: documents hold tabs, tabs hold strokes of
grid cells drawn as lines or points in one of a few sizes and colors.

The editing model is a Verus library under `src/`. Every function of it is proved
against its contract except one trusted wrapper, `parse_json_string_map` in
`localization/bundle.rs`, which calls `serde_json::from_str` and whose contract
only names the parsed map:

- `domain/` — documents, tabs, strokes and the undo history, with their
  well-formedness (distinct tab ids, an existing active tab, no empty strokes).
- `ui/canvas/` — drawing, erasing, flood erasing of a connected area of one
  style, the per-frame pointer state machine, undo and redo; `laws.rs` and
  `picture.rs` state exactly which cells of every tab each edit, undo and redo
  paints or clears, and that undo then redo (or redo then undo) gives back the
  histories and the cells of every tab.
- `ui/render_core.rs` — the render plan shared by the screen and the PNG export.
- `ui/export_png.rs`, `icon.rs` — pixel buffers: rectangles, discs, rounded
  rectangles, Bresenham lines and the application icon.
- `ui/tabs.rs`, `ui/shortcuts.rs`, `app/`, `persistence/` — the decisions behind
  the tab strip, the keyboard shortcuts, autosave and the stored session.
- `localization/` — the built-in language bundles and text lookup with fallback.

`app/` is the window around it (egui through eframe, file dialogs, JSON files,
the session file); it handles floating-point geometry and I/O and calls the
library for every decision.

Notes on the data structures:

- Sets of cells (flood erasing, render groups) are `Vec`s kept free of repeats.
  vstd's specifications of `HashSet` and `HashMap` only speak of keys whose
  hashing obeys its key model, which it grants to integers and `bool` but not to
  cell coordinates (`[i32; 2]`); nothing could be proved of a `HashSet` of cells.
- The breadth-first search of flood erasing keeps the visited cells in order in
  one `Vec` and reads its unprocessed tail as the queue.
- The language bundles are a `Vec` of code and pairs, looked up in order.
- The texts in `localization/locales.rs` were written for this library.

# clipvault

Clipboard history for Hyprland/Wayland: a headless daemon that watches the
clipboard, keeps text and image clips, and serves a JSON protocol over a Unix
socket to a shelf frontend.

## Layout

- `src/` — the verified library (Verus).
  - `model.rs` — the history as mathematical values (`StoreView`), listing,
    eviction, search ranking and categories as spec functions.
  - `store.rs` — the executable store; every operation is proved against
    `model.rs` and keeps the store's invariant.
  - `ipc.rs` — the command protocol: `handle_command` runs a command against
    the store and answers a reply and its effects; legacy tokens, line
    framing, and event fan-out to subscribers.
  - `monitor.rs` — what a clipboard poll reads and when a capture is new.
  - `hover.rs` — the notch-hover state machine.
  - `shelf.rs` — the shelf's state and what each key press, click, menu
    choice and frame end does.
  - `gui.rs` — labels: sizes, dates, ages, hex colours.
  - `icons.rs`, `paths.rs`, `digest.rs`, `text.rs` — window-class names and
    icon lookup order, image and thumbnail paths, SHA-256 digests, byte and
    text helpers.
  - `laws.rs` — properties that span operations, stated and proved.
- `tests/` — tests of the library.
- `app/` — the program around it: the command line, SQLite persistence,
  the socket server, `wl-paste`/`wl-copy`, OCR through `tesseract`, the
  Hyprland pointer watcher and the egui shelf drawing.

# aurora_screenshots

The logic of a desktop screenshot tool, written in Verus and proved against
its contracts.

- `src/` is the verified library: shortcut parsing, monitor geometry and
  cropping, pixel-layout conversion, the capture pipeline around image
  decoding and encoding, the screencast frame bookkeeping, overlay window
  planning, pinned-capture storage and the history settings.
- `src/codec.rs` holds the trusted wrappers around the `image` and `base64`
  crates. A decoded image stays in the image crate's hands, in its own colour
  type, as a `Picture`; the contracts describe it by how it came to be
  (`ImageSource`). Every other function in `src/` is verified.
- `app/` is the desktop program around the library: the Tauri commands, the
  tray, SQLite history, X11/portal/PipeWire capture and the clipboard.
- `tests/` runs the library on concrete values.

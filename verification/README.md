# rotation_viewer

A dual-display image-sequence viewer driven by a rotation sensor, as a
verified library (`src/`) and the program around it (`app/`).

- `src/` is verified with Verus. It holds the parts of the viewer that
  compute: decoding image files' bytes, pixel compositing and RGBA packing,
  frame resampling, placing a decoded image on a window's canvas, the
  decode-cache window and the cache state of a sequence with each step of
  showing a frame, the frame-index mappings, which folder entries make up a
  sequence and in what order, Art-Net packet framing, and the small text
  scanners for sensor and debug messages, and when the viewer keeps
  running. Its outside calls stand behind
  trusted wrappers: the `image` crate's decoding and Lanczos3 resize, and
  `Arc::clone`.
- `app/` is ordinary Rust: windows (winit, minifb, pixels), MQTT, the serial
  sensor, reading files, font rendering, threads, and the floating-point
  work (angle arithmetic, sampling grids, rotation, easing curves).
- `tests/` runs the library on concrete inputs.

# texture_merger

A PNG layer compositor whose core is verified with Verus.

- `src/` is the verified library:
  - `composite.rs`: premultiplied source-over blending (8- and 16-bit),
    straight-alpha recovery, the visible layers in compositing order, the
    common output size, and the rotate/flip pixel transform;
    `composite_laws.rs` states what holds across these functions.
  - `boxsum.rs`: channel sums and averages over rectangles of RGBA8 pixels.
  - `decode.rs`: PNG headers and frames through the `png` crate, frame
    conversion to RGBA8/RGBA16, box-averaged thumbnails, PNG encoding and
    base64 data URLs.
  - `preview.rs`: the layer-stack preview, from file bytes to a data URL.
  - `import.rs`: which files of a folder walk are PNG files and in what
    order, and the item each imported file yields.
  - `export.rs`, `model.rs`, `lib.rs`: export entry point, shared data types
    and export state.
- `app/` is the Tauri shell: commands, file-system access, and serde copies
  of the data types.
- `tests/` exercises the library on concrete values.

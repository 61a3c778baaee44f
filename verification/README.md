# rust-onnx-infer

Vision inference on ONNX models: plate detection and reading, text detection and reading, and
sliced prediction on large images. The decisions of these pipelines are verified with Verus.

## Layout

- `src/` is the verified library.
  - `runtime/` holds run-time parameters, the choice of execution providers and the shapes of
    model outputs.
  - `imaging/` holds images, colour conversion, scaling and drawing by samples.
  - `engines/` holds the plate and text engines: preparing inputs, reading outputs, suppressing
    overlaps, connected components, decoding and the pipelines.
  - `sahi/` holds sliced prediction: collecting the boxes of slices, the way of bringing them
    together, and taking one box into another. Which boxes go together is up to the caller.
  - `ieee`, `rounding`, `magnitude` and `bounds` hold floating-point numbers as bit patterns and
    as exact roundings, so that sizes computed with a scale factor are proved to the last pixel.
- `app/` is ordinary Rust around it: ONNX Runtime sessions, files, logging and the
  floating-point geometry that the library calls through closures.
- `tests/` runs the library.

## What is trusted

Scaling calls `fast_image_resize`, and text calls `str::to_lowercase` and the debug form of a
string. Their contracts are believed; everything else in `src/` is proved.
Laws that relate several functions are public proof functions beside them.

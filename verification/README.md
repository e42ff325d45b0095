# video_sandbox

Frame-level building blocks of an experimental video pipeline, verified with Verus.

- `src/` is the verified library: RGBA8 pixels and frames, the `Process` / `Pipeline` /
  `Mixer` traits with `Piped` and `Mix`, the inversion and low-resolution glitch nodes, the
  span selection of pixel sorting, the seeded permutation table of the noise sources, strided
  picture-buffer layout, image decoding into frames, and the settings types of the encoder,
  decoder and warp nodes. Calls into `rand`, `rand_xoshiro` and `image` go through a few
  trusted wrappers in `src/rng.rs` and `src/framegen.rs`, each with its contract in its doc
  comment.
- `app/` is the unverified rest: FFmpeg decoding and encoding, file reading, threads, and the
  floating-point work (colour blending, displacement, invertible warps, noise sampling).
- `tests/` runs the library on concrete inputs.

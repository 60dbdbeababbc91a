# audio2face

Streaming lip-sync on top of an Audio2Face bundle: 16 kHz audio goes in, and
timed ARKit blendshape keyframes come out, thirty to the second.

The library under `src/` is verified with Verus. It decides everything that
does not need the outside world:

- `audio2face/`: the bundle's layout, the `.npy` and `.npz` readers, the
  active-set blendshape solver with its Cholesky factorisation, and the response
  curves;
- `arkit.rs`: keyframes, their JSON form, and smoothing from frame to frame;
- `lip_sync/`: cutting audio into windows, turning skin frames into keyframes,
  pacing them, and the streaming call as a machine of events and actions;
- `float_bits.rs`, `float_convert.rs`, `float_ops.rs`, `float_rounding.rs`:
  floating-point numbers as bit patterns. Comparison and conversion are
  verified; the operations that round are a trait, and the contracts say which
  of them is applied to what;
- `json.rs`, `text.rs`: JSON objects and text.

Laws that span functions stand beside what they speak of, as proof functions
whose names begin with `law_`. The longer ones have files of their own:

- `audio2face/npy_laws.rs`: what a written file reads back as;
- `audio2face/solver_laws.rs`: repeated solves, the bounds of the weights, and
  the stop test;
- `audio2face/curve_laws.rs`: what the response curves come to;
- `smoothing_laws.rs` and `smoothing_range_laws.rs`: what the smoother comes to;
- `lip_sync/repeat_laws.rs` and `lip_sync/run_laws.rs`: whole calls, however the
  audio is cut and whether or not it is paced;
- `lip_sync/session_laws.rs`: a node over many calls, and barging in.

Laws that need something of the arithmetic say so: that an operation has one
result for given operands (`is_repeatable` in `float_ops.rs`), or that it rounds
to nearest (`rounds_to_nearest` in `float_rounding.rs`).

`app/` is the plugin around the library: the floating-point unit, files, the
clock, the network and the plugin host. `tests/` runs the library.

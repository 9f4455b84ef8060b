# tetra_acelp

A verified implementation of the TETRA full-rate speech codec (EN 300 395-2,
clause 4) and of the announcement voice gate that feeds coded speech from a
live audio stream into a base station's group calls.

The library (`src/`) is Rust checked by Verus: public functions state
their results in `requires` / `ensures` over mathematical models (where a
result comes from the `zip` crate, over names for what that crate finds in
the archive), and the properties that span several functions are public
proof functions named `law_*`.

- `fixed/` — the fixed-point operators (saturating 16/32-bit arithmetic,
  shifts, normalisation, division, `log2`, `pow2`, `inv_sqrt`).
- `dsp` — LP analysis and filtering: autocorrelation, lag window,
  Levinson-Durbin, LP/LSP conversion, interpolation, residual and
  synthesis filters, long-term prediction.
- `decoder` — the speech decoder, specified as `decode_result`.
- `encoder`, `acelp_search`, `analysis` — the speech encoder; `analysis`
  writes down what every step computes, and `encode_frame` is stated as
  `encode_step` of the encoder state and the input.
- `frame`, `layout` — the 137-bit transport frame, the serial parameter
  layout, and the encoder/decoder front ends (clean-channel laws).
- `tables`, `reference` — the codec tables, and reading them from the
  reference sources held in a ZIP archive.
- `voicegate/` — voice-activity pipeline, call-control state machine of the
  voice gate, and the decisions of its stream worker.
- `announcement_config`, `announcement_control` — validation of the
  announcement configuration section and the call-control decisions for
  announcement calls.

`app/` holds what Verus does not check: the command-line programs, network
and audio I/O, floating-point resampling and levels, and the serde copies of
the configuration types. `tests/` runs the library on concrete values.

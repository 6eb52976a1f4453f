# rust_autotune

Low-latency pitch correction for voice, with its signal path verified by Verus.

- `src/` is the library. `scalar` holds single-precision numbers by their bit patterns and
  decides everything about them that involves no rounding; `arith` is the rounding arithmetic,
  a function that the caller supplies. On these rest the detector (`yin`), the scales
  (`scale`), the shifters (`psola` with `marks`, `phase_vocoder`), formant correction
  (`formant`), the whole path (`processor`), the live session (`audio` with `frames`), the
  effect for hosts (`plugin`) and the settings (`config`). `readings`, `response`, `unvoiced`
  and `peaks` hold laws of the path alone: what the meter shows, how the settings act, what
  becomes of a signal without a pitch, and that no peak is amplified.
- `tests/` runs the library with machine floats.
- `app/` is the command line program and the plugin around it: devices, streams, parameters.

The contracts say what each function gives for every arithmetic that gives one result for one
operation. The public proof functions state what holds of the path as a whole: that the output
stays in range, that a shifter may be fed in blocks cut anywhere, that a lost pitch is dropped,
that a pitch moves to a note of its scale, that harder settings move it no less, that a signal
without a pitch comes out as it went in once the fade is over. Where a law depends on rounding, what it asks of
the arithmetic is among its conditions.

Trusted is only the ring of the crate `rtrb`, which carries samples from the input to the
output: `push`, `pop` and `new_ring` in `audio`.

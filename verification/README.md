# Sinestesia

The verified core of an audio visualizer: from the samples of two channels to the
vertices that a frame draws, with contracts and proofs in Verus. The program around
it captures audio with PipeWire, transforms it with rustfft, shows a GTK 4 window and
draws with OpenGL.

## Layout

- `src/float/` single precision numbers as bit patterns, with exact rounding: every
  operation is proved to give the number nearest to the exact result.
- `src/audio.rs` the sample buffers that the capture fills and the analysis reads.
- `src/bands.rs`, `src/dsp.rs` logarithmic bands, window, levels and smoothing.
- `src/stereo.rs` where each band seems to come from; `src/symmetry.rs`, `src/readings.rs`
  and `src/exchange.rs` what equal and exchanged channels do to it, step by step and from
  the transforms to the image.
- `src/render/` spectra to vertices, one module per effect; `scene.rs` puts the passes
  of a frame together; `drift.rs`, `procession.rs`, `stage.rs` and `sides.rs` hold what is
  proved of the tunnel and of the stereo image.
- `src/solid/` the geodesic solid: its topology, its mesh and its view; `length.rs` and
  `sphere.rs` prove it round.
- `src/config.rs`, `src/theme.rs`, `src/ui.rs` settings, colors and the window's state.
- `tests/` the library on concrete values, held against machine arithmetic.
- `app/` the program: capture, transform, window, OpenGL and the settings file.

## Numbers

Everything that the library computes with is an `F32`: the bits of a single precision
number. Addition, multiplication, division, remainder and square root are written on
integers and specified by rounding to nearest, ties to even. Sines, cosines,
exponentials, logarithms and the Fourier transform are not part of the library. A
computation that needs one is split: one function gives the arguments, the caller
applies the function, and the next function takes the results.

## Laws

Public proof functions named `law_…` state what holds of the library as a whole: the
smoothed spectrum stays from zero to one, the solid stays a closed surface, and round, under
division, in silence the tunnel only empties, a settings message twice is the same as
once, and so on.

# analyzer

Acoustic measurement: capture, calibration, spectra, transfer functions, impulse
responses, distortion, level meters and equalisation, with every decision and every
formula stated as a contract and proved by Verus.

## Layout

- `src/` is the library.
  - `dsp/`: windows, framing, spectra, transfer functions, multi-time-window splicing,
    delay finding, deconvolution, impulse responses, distortion, octave bands,
    generators, meters, biquads, equalisers, target curves and filter fitting.
  - `cal/`: microphone curves, frequency weighting and the calibration chain.
  - `audio/`: devices, stream configuration, the offline backend, and what the
    CoreAudio backend decides.
  - `engine/`: the capture ring, the snapshot channel, reference alignment and one turn
    of the analysis worker.
  - `ieee`, `arith`, `numbers`, `order`, `points`, `powers`, `text`: what the others are
    built from.
- `tests/` runs the library on the machine's arithmetic and transforms.
- `app/` is ordinary Rust around it: floating-point interfaces, the FFT, the analysis
  thread and the hardware.

## Numbers

The library holds a floating-point number as its bit pattern (`F32`, `F64`). Ordering,
sign, rounding to whole numbers and the special values are read off the pattern and
proved about. Arithmetic and transforms are handed in by the caller (`Arith`,
`WideArith`, `Forward`, `Inverse`) as functions whose result depends on their arguments
alone, and contracts say which of them are applied to what, and in which order. What is
proved therefore holds of whatever arithmetic the caller brings.

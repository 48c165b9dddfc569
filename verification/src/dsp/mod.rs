//! Signal analysis: framing, averaging, searching and deciding on measured curves.

pub mod biquad;
pub mod deconv;
pub mod delay;
pub mod distortion;
pub mod eq;
pub mod fft;
pub mod framing;
pub mod generator;
pub mod ir;
pub mod meter;
pub mod mtw;
pub mod octave;
pub mod optimise;
pub mod peak;
pub mod spectrum;
pub mod target;
pub mod transfer;
pub mod window;

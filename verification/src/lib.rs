//! Acoustic measurement: capture, calibration, analysis and equalisation.

pub mod arith;
pub mod audio;
pub mod cal;
pub mod choice;
pub mod dsp;
pub mod engine;
pub mod ieee;
pub mod numbers;
pub mod order;
pub mod points;
pub mod powers;
pub mod text;

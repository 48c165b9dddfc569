//! Calibration: raw converter levels to absolute sound pressure level.
//!
//! ```text
//! dBFS -> + offset -> + microphone response -> + weighting -> dB SPL
//! ```
//!
//! The chain lives in one place and raw levels pass through it exactly once.

pub mod chain;
pub mod curve;
pub mod weighting;

//! Audio devices, streams and what a backend decides before it touches hardware.

pub mod coreaudio;
pub mod device;
pub mod error;
pub mod offline;
pub mod stream;

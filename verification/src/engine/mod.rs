//! From the audio callback to a published result: the ring, the graph that is run on
//! what comes out of it, and the snapshot the UI reads.

pub mod alignment;
pub mod engine;
pub mod ring;
pub mod rt;
pub mod snapshot;
pub mod worker;

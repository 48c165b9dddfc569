//! Errors raised while enumerating devices or opening streams.

use vstd::prelude::*;

use crate::ieee::F64;

verus! {

/// Something went wrong talking to the audio hardware.
///
/// These are all setup-time failures. Nothing here is returned from the
/// real-time callback.
#[derive(Debug, PartialEq)]
pub enum AudioError {
    /// No backend is compiled in or available for this platform.
    NoBackend,
    /// The requested device is gone: unplugged, or an id from a stale list.
    DeviceNotFound(String),
    /// The device will not run at the requested rate.
    UnsupportedSampleRate {
        /// Human-readable device name.
        device: String,
        /// Rate that was asked for, in hertz.
        requested: F64,
    },
    /// A requested channel index does not exist on the device.
    ChannelOutOfRange {
        /// Human-readable device name.
        device: String,
        /// Index that was asked for.
        channel: u32,
        /// How many the device actually has.
        available: u32,
    },
    /// No input and no output channel was selected, so there is nothing to do.
    NothingToDo,
    /// Start was called on a stream that is already running.
    AlreadyRunning,
    /// The platform API failed for a reason worth passing through verbatim.
    Backend(String),
}

impl AudioError {
    /// Whether this says that `device` lacks `channel`, having only `available`.
    pub open spec fn lacks_channel(self, device: Seq<char>, channel: u32, available: u32) -> bool {
        self matches AudioError::ChannelOutOfRange { device: d, channel: c, available: a } && d@
            == device && c == channel && a == available
    }

    /// Whether this says that `device` does not run at `rate`.
    pub open spec fn refuses_rate(self, device: Seq<char>, rate: F64) -> bool {
        self matches AudioError::UnsupportedSampleRate { device: d, requested: r } && d@ == device
            && r == rate
    }

    /// Whether this says that the device `id` is not there.
    pub open spec fn misses_device(self, id: Seq<char>) -> bool {
        self matches AudioError::DeviceNotFound(d) && d@ == id
    }

    /// Whether this passes `message` through.
    pub open spec fn says(self, message: Seq<char>) -> bool {
        self matches AudioError::Backend(m) && m@ == message
    }
}

} // verus!

//! Device identity and capabilities.

use vstd::prelude::*;

use crate::arith::{Wide, WideArith};
use crate::ieee::F64;

verus! {

/// One half, the distance within which two sample rates are the same rate.
pub const HALF_HERTZ_BITS: u64 = 0x3FE0_0000_0000_0000;

/// Opaque, backend-scoped device identifier.
///
/// A string rather than an integer: it is the only representation every platform
/// can round-trip, and it is what gets persisted in a saved session.
#[derive(Debug, PartialEq, Eq, Hash, PartialOrd, Ord)]
pub struct DeviceId {
    id: String,
}

impl View for DeviceId {
    type V = Seq<char>;

    closed spec fn view(&self) -> Seq<char> {
        self.id@
    }
}

impl DeviceId {
    /// Wrap a backend-specific identifier.
    pub fn new(id: &str) -> (device: DeviceId)
        ensures
            device@ == id@,
    {
        DeviceId { id: id.to_owned() }
    }

    /// The underlying identifier.
    pub fn as_str(&self) -> (id: &str)
        ensures
            id@ == self@,
    {
        self.id.as_str()
    }
}

impl Clone for DeviceId {
    fn clone(&self) -> (device: DeviceId)
        ensures
            device@ == self@,
    {
        DeviceId { id: self.id.clone() }
    }
}

/// What a device is and what it can do.
#[derive(Debug, Clone, PartialEq)]
pub struct DeviceInfo {
    /// Backend-scoped identifier.
    pub id: DeviceId,
    /// Name to show a user.
    pub name: String,
    /// Capture channels available.
    pub input_channels: u32,
    /// Playback channels available.
    pub output_channels: u32,
    /// The rate the device is currently set to.
    pub default_sample_rate: F64,
    /// Rates the device reports it can run at. Empty means unknown.
    pub supported_sample_rates: Vec<F64>,
    /// Whether the system considers this the default capture device.
    pub is_default_input: bool,
    /// Whether the system considers this the default playback device.
    pub is_default_output: bool,
}

/// Whether two sample rates are the same rate, less than half a hertz apart.
#[verifier::allow_in_spec]
pub fn same_rate<W: Fn(Wide) -> F64>(w: &WideArith<W>, a: F64, b: F64) -> bool
    returns
        w.minus(a, b).abs().lt(F64 { bits: HALF_HERTZ_BITS }),
{
    w.minus(a, b).abs().lt(F64 { bits: HALF_HERTZ_BITS })
}

impl DeviceInfo {
    /// Whether this device can capture.
    pub fn has_input(&self) -> (yes: bool)
        ensures
            yes == (self.input_channels > 0),
    {
        self.input_channels > 0
    }

    /// Whether this device can play back.
    pub fn has_output(&self) -> (yes: bool)
        ensures
            yes == (self.output_channels > 0),
    {
        self.output_channels > 0
    }

    /// Whether `rate` is known to work.
    ///
    /// An unknown list must not be read as a refusal.
    pub fn supports_sample_rate<W: Fn(Wide) -> F64>(&self, w: &WideArith<W>, rate: F64) -> (yes:
        bool)
        ensures
            yes == (self.supported_sample_rates@.len() == 0 || exists|i: int|
                0 <= i < self.supported_sample_rates@.len() && same_rate(
                    w,
                    #[trigger] self.supported_sample_rates@[i],
                    rate,
                )),
    {
        let count: usize = self.supported_sample_rates.len();
        if count == 0 {
            return true;
        }
        let mut i: usize = 0;
        while i < count
            invariant
                i <= count,
                count == self.supported_sample_rates@.len(),
                count > 0,
                forall|k: int|
                    0 <= k < i ==> !same_rate(w, #[trigger] self.supported_sample_rates@[k], rate),
            decreases count - i,
        {
            if same_rate(w, self.supported_sample_rates[i], rate) {
                return true;
            }
            i = i + 1;
        }
        false
    }
}

/// The first device of a list that is the default for capture.
pub fn default_input(devices: &[DeviceInfo]) -> (found: Option<usize>)
    ensures
        match found {
            Some(at) => at < devices@.len() && devices@[at as int].is_default_input && forall|i: int|
                0 <= i < at ==> !(#[trigger] devices@[i]).is_default_input,
            None => forall|i: int|
                0 <= i < devices@.len() ==> !(#[trigger] devices@[i]).is_default_input,
        },
{
    let mut i: usize = 0;
    while i < devices.len()
        invariant
            i <= devices@.len(),
            forall|k: int| 0 <= k < i ==> !(#[trigger] devices@[k]).is_default_input,
        decreases devices@.len() - i,
    {
        if devices[i].is_default_input {
            return Some(i);
        }
        i = i + 1;
    }
    None
}

/// The first device of a list that is the default for playback.
pub fn default_output(devices: &[DeviceInfo]) -> (found: Option<usize>)
    ensures
        match found {
            Some(at) => at < devices@.len() && devices@[at as int].is_default_output && forall|
                i: int,
            |
                0 <= i < at ==> !(#[trigger] devices@[i]).is_default_output,
            None => forall|i: int|
                0 <= i < devices@.len() ==> !(#[trigger] devices@[i]).is_default_output,
        },
{
    let mut i: usize = 0;
    while i < devices.len()
        invariant
            i <= devices@.len(),
            forall|k: int| 0 <= k < i ==> !(#[trigger] devices@[k]).is_default_output,
        decreases devices@.len() - i,
    {
        if devices[i].is_default_output {
            return Some(i);
        }
        i = i + 1;
    }
    None
}

/// Two rates are the same where they are less than half a hertz apart, whichever is the
/// higher.
pub proof fn lemma_same_rate<W: Fn(Wide) -> F64>(w: WideArith<W>, a: F64, b: F64)
    ensures
        same_rate(&w, a, b) <==> w.minus(a, b).spec_abs().less(
            F64 { bits: 0x3FE0_0000_0000_0000 },
        ),
        w.minus(b, a) == w.minus(a, b).spec_negated() ==> same_rate(&w, a, b) == same_rate(&w, b, a),
{
}

} // verus!

//! Stream configuration, the real-time callback contract, and stream control.

use vstd::prelude::*;

use crate::arith::{Wide, WideArith};
use crate::audio::device::DeviceId;
use crate::audio::error::AudioError;
use crate::ieee::F64;

verus! {

/// What to open.
///
/// Input and output are named separately because measurement rigs routinely use
/// two different devices. Neither side is required.
#[derive(Debug, PartialEq)]
pub struct StreamConfig {
    /// Capture device, if capturing.
    pub input: Option<DeviceId>,
    /// Playback device, if playing.
    pub output: Option<DeviceId>,
    /// Requested rate in hertz.
    pub sample_rate: F64,
    /// Requested callback size in frames. Backends may round this.
    pub buffer_frames: u32,
    /// Device channel indices to capture, in the order they should be delivered.
    pub input_channels: Vec<u32>,
    /// Device channel indices to play to, in the order buffers supply them.
    pub output_channels: Vec<u32>,
}

/// Whether two optional devices are the same one, or both absent.
pub open spec fn same_device(a: Option<DeviceId>, b: Option<DeviceId>) -> bool {
    match (a, b) {
        (Some(x), Some(y)) => x@ == y@,
        (None, None) => true,
        _ => false,
    }
}

impl StreamConfig {
    /// Whether two configurations ask for the same stream.
    pub open spec fn same(self, other: StreamConfig) -> bool {
        &&& same_device(self.input, other.input)
        &&& same_device(self.output, other.output)
        &&& self.sample_rate == other.sample_rate
        &&& self.buffer_frames == other.buffer_frames
        &&& self.input_channels@ == other.input_channels@
        &&& self.output_channels@ == other.output_channels@
    }

    /// Neither direction has channels.
    pub open spec fn idle(self) -> bool {
        self.input_channels@.len() == 0 && self.output_channels@.len() == 0
    }

    /// The rate is zero or below.
    pub open spec fn rateless(self) -> bool {
        self.sample_rate.at_most(F64 { bits: 0 })
    }

    /// Basic self-consistency check, before a backend touches the hardware.
    pub fn validate(&self) -> (checked: Result<(), AudioError>)
        ensures
            checked is Ok <==> !self.idle() && !self.rateless(),
            self.idle() ==> checked == Err::<(), AudioError>(AudioError::NothingToDo),
            !self.idle() && self.rateless() ==> (checked matches Err(e) && e.refuses_rate(
                "stream"@,
                self.sample_rate,
            )),
    {
        if self.input_channels.len() == 0 && self.output_channels.len() == 0 {
            return Err(AudioError::NothingToDo);
        }
        if self.sample_rate.le(F64 { bits: 0 }) {
            return Err(
                AudioError::UnsupportedSampleRate {
                    device: "stream".to_owned(),
                    requested: self.sample_rate,
                },
            );
        }
        Ok(())
    }
}

impl Default for StreamConfig {
    fn default() -> (config: StreamConfig)
        ensures
            config.input is None,
            config.output is None,
            config.sample_rate == (F64 { bits: 0 }),
            config.buffer_frames == 0,
            config.idle(),
    {
        StreamConfig {
            input: None,
            output: None,
            sample_rate: F64 { bits: 0 },
            buffer_frames: 0,
            input_channels: Vec::new(),
            output_channels: Vec::new(),
        }
    }
}

fn clone_device(device: &Option<DeviceId>) -> (copy: Option<DeviceId>)
    ensures
        same_device(copy, *device),
{
    match device {
        Some(id) => Some(id.clone()),
        None => None,
    }
}

impl Clone for StreamConfig {
    fn clone(&self) -> (config: StreamConfig)
        ensures
            config.same(*self),
    {
        StreamConfig {
            input: clone_device(&self.input),
            output: clone_device(&self.output),
            sample_rate: self.sample_rate,
            buffer_frames: self.buffer_frames,
            input_channels: self.input_channels.clone(),
            output_channels: self.output_channels.clone(),
        }
    }
}

/// Check that a device with `available` channels has every channel of `wanted`,
/// reporting the first that it lacks.
pub fn check_channels(device: &str, wanted: &[u32], available: u32) -> (checked: Result<
    (),
    AudioError,
>)
    ensures
        checked is Ok <==> forall|i: int|
            0 <= i < wanted@.len() ==> #[trigger] wanted@[i] < available,
        checked matches Err(e) ==> exists|i: int|
            0 <= i < wanted@.len() && e.lacks_channel(device@, #[trigger] wanted@[i], available)
                && wanted@[i] >= available && forall|k: int|
                0 <= k < i ==> #[trigger] wanted@[k] < available,
{
    let mut i: usize = 0;
    while i < wanted.len()
        invariant
            i <= wanted@.len(),
            forall|k: int| 0 <= k < i ==> #[trigger] wanted@[k] < available,
        decreases wanted@.len() - i,
    {
        let channel: u32 = wanted[i];
        if channel >= available {
            let error = AudioError::ChannelOutOfRange {
                device: device.to_owned(),
                channel,
                available,
            };
            assert(error.lacks_channel(device@, wanted@[i as int], available));
            return Err(error);
        }
        i = i + 1;
    }
    Ok(())
}

/// Where the hardware's latency actually sits.
#[derive(Debug, Clone, Copy, PartialEq, Eq, Structural)]
pub struct StreamLatency {
    /// Frames of delay between sound arriving and the callback seeing it.
    pub input_frames: u32,
    /// Frames of delay between the callback writing and sound emerging.
    pub output_frames: u32,
    /// Additional device safety offset the driver imposes.
    pub safety_offset_frames: u32,
}

impl Default for StreamLatency {
    fn default() -> (latency: StreamLatency)
        ensures
            latency == (StreamLatency {
                input_frames: 0,
                output_frames: 0,
                safety_offset_frames: 0,
            }),
    {
        StreamLatency { input_frames: 0, output_frames: 0, safety_offset_frames: 0 }
    }
}

impl StreamLatency {
    /// The three delays together, at most what the type holds.
    pub open spec fn spec_round_trip(self) -> u32 {
        let total = self.input_frames + self.output_frames + self.safety_offset_frames;
        if total > u32::MAX {
            u32::MAX
        } else {
            total as u32
        }
    }

    /// Total output-to-input delay in frames.
    pub fn round_trip_frames(&self) -> (frames: u32)
        ensures
            frames == self.spec_round_trip(),
    {
        self.input_frames.saturating_add(self.output_frames).saturating_add(
            self.safety_offset_frames,
        )
    }

    /// Total output-to-input delay in seconds at `sample_rate`. Zero at a rate that is
    /// not positive.
    pub fn round_trip_seconds<W: Fn(Wide) -> F64>(&self, w: &WideArith<W>, sample_rate: F64) -> (
    delay: F64)
        ensures
            delay == if sample_rate.le(F64 { bits: 0 }) {
                F64 { bits: 0 }
            } else {
                w.over(w.count(self.spec_round_trip() as u64), sample_rate)
            },
    {
        if sample_rate.le(F64 { bits: 0 }) {
            return F64 { bits: 0 };
        }
        w.over(w.count(self.round_trip_frames() as u64), sample_rate)
    }
}

/// Interleaved buffers for one callback invocation.
///
/// Both sides are interleaved as the hardware presents them. Deinterleaving is
/// the engine's job, so there is exactly one place that decides the memory layout
/// the analysis chain sees.
#[derive(Debug)]
pub struct AudioBuffers<'a, T> {
    pub input: &'a [T],
    pub output: &'a mut [T],
    pub input_channels: usize,
    pub output_channels: usize,
    pub frames: usize,
}

impl<'a, T> AudioBuffers<'a, T> {
    /// Both slices hold `frames` whole frames.
    pub open spec fn wf(self) -> bool {
        &&& self.input@.len() == self.frames * self.input_channels
        &&& self.output@.len() == self.frames * self.output_channels
    }
}

impl<'a, T: Copy> AudioBuffers<'a, T> {
    /// Wrap a backend's buffers.
    pub fn new(
        input: &'a [T],
        output: &'a mut [T],
        input_channels: usize,
        output_channels: usize,
        frames: usize,
    ) -> (buffers: AudioBuffers<'a, T>)
        requires
            input@.len() == frames * input_channels,
            old(output)@.len() == frames * output_channels,
        ensures
            buffers.wf(),
            buffers.input@ == input@,
            buffers.output@ == old(output)@,
            final(buffers.output)@ == final(output)@,
            buffers.input_channels == input_channels,
            buffers.output_channels == output_channels,
            buffers.frames == frames,
    {
        AudioBuffers { input, output, input_channels, output_channels, frames }
    }

    /// Frames in this callback.
    pub fn frames(&self) -> (frames: usize)
        ensures
            frames == self.frames,
    {
        self.frames
    }

    /// Number of interleaved capture channels.
    pub fn input_channels(&self) -> (channels: usize)
        ensures
            channels == self.input_channels,
    {
        self.input_channels
    }

    /// Number of interleaved playback channels.
    pub fn output_channels(&self) -> (channels: usize)
        ensures
            channels == self.output_channels,
    {
        self.output_channels
    }

    /// The interleaved capture buffer.
    pub fn input(&self) -> (samples: &[T])
        ensures
            samples@ == self.input@,
    {
        self.input
    }

    /// The interleaved playback buffer.
    pub fn output_mut(&mut self) -> (samples: &mut [T])
        ensures
            samples@ == old(self).output@,
            final(self).output@ == final(samples)@,
            final(final(self).output)@ == final(old(self).output)@,
            final(self).input@ == old(self).input@,
            final(self).input_channels == old(self).input_channels,
            final(self).output_channels == old(self).output_channels,
            final(self).frames == old(self).frames,
    {
        self.output
    }

    /// The sample of one capture channel in one frame. `None` if there is no such channel
    /// or frame: on the real-time thread a panic is worse than silence.
    pub fn input_sample(&self, channel: usize, frame: usize) -> (sample: Option<T>)
        requires
            self.wf(),
        ensures
            sample == if channel < self.input_channels && frame < self.frames {
                Some(self.input@[frame * self.input_channels + channel])
            } else {
                None
            },
    {
        if channel >= self.input_channels || frame >= self.frames {
            return None;
        }
        let len: usize = self.input.len();
        assert(0 <= frame * self.input_channels && frame * self.input_channels + channel < len)
            by (nonlinear_arith)
            requires
                len == self.frames * self.input_channels,
                0 <= frame < self.frames,
                0 <= channel < self.input_channels,
        ;
        Some(self.input[frame * self.input_channels + channel])
    }

    /// Samples of one capture channel, in order. None at all if `channel` is out
    /// of range: on the real-time thread a panic is worse than silence.
    ///
    /// The samples come in a new vector. Where nothing may be allocated, take them one
    /// by one with [`AudioBuffers::input_sample`].
    pub fn input_channel(&self, channel: usize) -> (samples: Vec<T>)
        requires
            self.wf(),
        ensures
            channel < self.input_channels ==> samples@ == Seq::new(
                self.frames as nat,
                |f: int| self.input@[f * self.input_channels + channel],
            ),
            channel >= self.input_channels ==> samples@ == Seq::<T>::empty(),
    {
        let mut samples: Vec<T> = Vec::new();
        if channel >= self.input_channels {
            return samples;
        }
        let mut frame: usize = 0;
        while frame < self.frames
            invariant
                self.wf(),
                channel < self.input_channels,
                frame <= self.frames,
                samples@.len() == frame,
                forall|f: int|
                    0 <= f < frame ==> #[trigger] samples@[f] == self.input@[f
                        * self.input_channels + channel],
            decreases self.frames - frame,
        {
            match self.input_sample(channel, frame) {
                Some(sample) => {
                    samples.push(sample);
                },
                None => {},
            }
            frame = frame + 1;
        }
        assert(samples@ =~= Seq::new(
            self.frames as nat,
            |f: int| self.input@[f * self.input_channels + channel],
        ));
        samples
    }

    /// Write silence to the whole playback buffer.
    ///
    /// Backends do not guarantee the buffer arrives zeroed, and stale contents
    /// played back at full scale is the loudest possible bug.
    pub fn silence_output(&mut self, silence: T)
        ensures
            final(self).input@ == old(self).input@,
            final(self).input_channels == old(self).input_channels,
            final(self).output_channels == old(self).output_channels,
            final(self).frames == old(self).frames,
            final(self).output@ == Seq::new(old(self).output@.len(), |i: int| silence),
            final(final(self).output)@ == final(old(self).output)@,
    {
        let n: usize = self.output.len();
        let mut i: usize = 0;
        while i < n
            invariant
                i <= n,
                n == self.output@.len(),
                n == old(self).output@.len(),
                self.input == old(self).input,
                self.input_channels == old(self).input_channels,
                self.output_channels == old(self).output_channels,
                self.frames == old(self).frames,
                final(self.output)@ == final(old(self).output)@,
                forall|k: int| 0 <= k < i ==> self.output@[k] == silence,
            decreases n - i,
        {
            self.output[i] = silence;
            i = i + 1;
        }
        assert(self.output@ =~= Seq::new(n as nat, |i: int| silence));
    }
}

/// The real-time audio callback.
///
/// It runs on a thread with a hard deadline: it must not allocate, take a lock,
/// log or block. In practice it should hand the frames to a lock-free queue and
/// return.
pub trait AudioCallback<T>: Sized {
    /// Whether a callback that was `before` may become `after` and leave `output` on the
    /// playback side, when it is handed `input` and finds `cleared` there, as `frames`
    /// frames of so many channels on either side. A callback of which nothing is known may
    /// do anything.
    open spec fn plays(
        before: Self,
        input_channels: nat,
        output_channels: nat,
        frames: nat,
        input: Seq<T>,
        cleared: Seq<T>,
        after: Self,
        output: Seq<T>,
    ) -> bool {
        true
    }

    /// Consume the capture side of `buffers` and fill its playback side, which
    /// stays the slice that it is.
    fn process(&mut self, buffers: &mut AudioBuffers<'_, T>)
        requires
            old(buffers).wf(),
        ensures
            Self::plays(
                *old(self),
                old(buffers).input_channels as nat,
                old(buffers).output_channels as nat,
                old(buffers).frames as nat,
                old(buffers).input@,
                old(buffers).output@,
                *final(self),
                final(buffers).output@,
            ),
            final(buffers).output@.len() == old(buffers).output@.len(),
            final(final(buffers).output)@ == final(old(buffers).output)@,
    ;
}

/// A configured, controllable stream.
pub trait AudioStream {
    /// Whether the callback is currently being invoked.
    spec fn running(&self) -> bool;

    /// What the backend granted.
    spec fn granted(&self) -> StreamConfig;

    /// Begin calling the callback.
    fn start(&mut self) -> (started: Result<(), AudioError>)
        ensures
            final(self).granted() == old(self).granted(),
            old(self).running() ==> final(self).running() && started == Err::<(), AudioError>(
                AudioError::AlreadyRunning,
            ),
            !old(self).running() ==> final(self).running() == (started is Ok),
    ;

    /// Stop calling the callback. Idempotent.
    fn stop(&mut self) -> (stopped: Result<(), AudioError>)
        ensures
            final(self).granted() == old(self).granted(),
            !final(self).running(),
            !old(self).running() ==> stopped is Ok,
    ;

    /// Whether the callback is currently being invoked.
    fn is_running(&self) -> (running: bool)
        ensures
            running == self.running(),
    ;

    /// What the backend actually granted.
    fn config(&self) -> (config: &StreamConfig)
        ensures
            *config == self.granted(),
    ;

    /// Hardware latency, for reference-signal compensation.
    fn latency(&self) -> StreamLatency;
}

/// A round trip is all three delays, as far as the type counts.
pub proof fn lemma_round_trip_is_the_sum(latency: StreamLatency)
    ensures
        latency.input_frames + latency.output_frames + latency.safety_offset_frames <= u32::MAX
            ==> latency.spec_round_trip() == latency.input_frames + latency.output_frames
            + latency.safety_offset_frames,
        latency.input_frames + latency.output_frames + latency.safety_offset_frames > u32::MAX
            ==> latency.spec_round_trip() == u32::MAX,
{
}

/// A stream has nothing to do exactly where it has no channel either way, and no rate
/// where its rate is zero or below.
pub proof fn lemma_what_a_stream_needs(config: StreamConfig)
    ensures
        config.idle() <==> config.input_channels@ + config.output_channels@ == Seq::<u32>::empty(),
        config.rateless() <==> !config.sample_rate.nan() && (config.sample_rate.negative()
            || config.sample_rate.magnitude() == 0),
{
    let both = config.input_channels@ + config.output_channels@;
    if config.idle() {
        assert(both =~= Seq::<u32>::empty());
    } else {
        assert(both.len() > 0);
    }
}

} // verus!

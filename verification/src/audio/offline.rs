//! A stream that reads from memory instead of hardware.
//!
//! It is explicitly **not** real-time: it runs its callback as fast as it can.
//! That makes it useful for checking numbers and useless for measuring latency.

use vstd::prelude::*;

use crate::audio::device::{DeviceId, DeviceInfo};
use crate::audio::error::AudioError;
use crate::audio::stream::{
    check_channels, AudioBuffers, AudioCallback, AudioStream, StreamConfig, StreamLatency,
};
use crate::ieee::F64;

verus! {

/// Playback channels of the offline device: enough to exercise multi-channel
/// routing without pretending to be a real interface.
pub const OFFLINE_OUTPUTS: u32 = 2;

/// Device id the offline backend reports.
pub fn offline_device_id() -> (id: &'static str)
    ensures
        id@ == "offline"@,
{
    "offline"
}

/// Interleaved sample material to feed a stream.
#[derive(Debug, Clone, PartialEq)]
pub struct Source<T> {
    /// Interleaved samples, `frames * channels` long.
    pub samples: Vec<T>,
    /// Channels the interleaving assumes.
    pub channels: usize,
    /// Nominal rate, reported through the device info.
    pub sample_rate: F64,
}

impl<T: Copy> Source<T> {
    /// A whole number of frames of at least one channel.
    pub open spec fn wf(self) -> bool {
        self.channels > 0 && self.samples@.len() % (self.channels as nat) == 0
    }

    /// Frames of material.
    pub open spec fn spec_frames(self) -> nat {
        self.samples@.len() / (self.channels as nat)
    }

    /// Sample `frame` of channel `channel`.
    pub open spec fn sample(self, frame: int, channel: int) -> T {
        self.samples@[frame * self.channels + channel]
    }

    /// Build a source from interleaved samples.
    pub fn new(samples: Vec<T>, channels: usize, sample_rate: F64) -> (source: Source<T>)
        requires
            channels > 0,
            samples@.len() % (channels as nat) == 0,
        ensures
            source.wf(),
            source.samples@ == samples@,
            source.channels == channels,
            source.sample_rate == sample_rate,
    {
        Source { samples, channels, sample_rate }
    }

    /// Build a single-channel source.
    pub fn mono(samples: Vec<T>, sample_rate: F64) -> (source: Source<T>)
        ensures
            source.wf(),
            source.samples@ == samples@,
            source.channels == 1,
            source.sample_rate == sample_rate,
            source.spec_frames() == samples@.len(),
    {
        Source { samples, channels: 1, sample_rate }
    }

    /// Frames of material available.
    pub fn frames(&self) -> (frames: usize)
        requires
            self.wf(),
        ensures
            frames == self.spec_frames(),
    {
        self.samples.len() / self.channels
    }
}

fn copy_samples<T: Copy>(samples: &Vec<T>) -> (copy: Vec<T>)
    ensures
        copy@ == samples@,
{
    let mut copy: Vec<T> = Vec::new();
    let mut i: usize = 0;
    while i < samples.len()
        invariant
            i <= samples@.len(),
            copy@ == samples@.take(i as int),
        decreases samples@.len() - i,
    {
        copy.push(samples[i]);
        i = i + 1;
        assert(samples@.take(i as int) =~= samples@.take(i - 1).push(samples@[i - 1]));
    }
    assert(samples@.take(i as int) =~= samples@);
    copy
}

/// A channel count as far as a device can report it.
pub open spec fn reported_channels(channels: usize) -> u32 {
    if channels > u32::MAX {
        u32::MAX
    } else {
        channels as u32
    }
}

/// Whether every channel of `wanted` exists among `available`.
pub open spec fn all_exist(wanted: Seq<u32>, available: u32) -> bool {
    forall|i: int| 0 <= i < wanted.len() ==> #[trigger] wanted[i] < available
}

/// A backend over an in-memory [`Source`].
#[derive(Debug, Clone)]
pub struct OfflineBackend<T> {
    source: Source<T>,
    block_frames: usize,
}

impl<T: Copy> OfflineBackend<T> {
    pub closed spec fn spec_source(self) -> Source<T> {
        self.source
    }

    pub closed spec fn spec_block(self) -> usize {
        self.block_frames
    }

    pub open spec fn wf(self) -> bool {
        self.spec_source().wf() && self.spec_block() > 0
    }

    /// Wrap `source`, delivering `block_frames` per callback.
    pub fn new(source: Source<T>, block_frames: usize) -> (backend: OfflineBackend<T>)
        requires
            source.wf(),
            block_frames > 0,
        ensures
            backend.wf(),
            backend.spec_source() == source,
            backend.spec_block() == block_frames,
    {
        OfflineBackend { source, block_frames }
    }

    /// The one device there is.
    pub fn device(&self) -> (device: DeviceInfo)
        ensures
            device.id@ == "offline"@,
            device.name@ == "Offline (in-memory)"@,
            device.input_channels == reported_channels(self.spec_source().channels),
            device.output_channels == OFFLINE_OUTPUTS,
            device.default_sample_rate == self.spec_source().sample_rate,
            device.supported_sample_rates@ == seq![self.spec_source().sample_rate],
            device.is_default_input,
            device.is_default_output,
    {
        let mut rates: Vec<F64> = Vec::new();
        rates.push(self.source.sample_rate);
        DeviceInfo {
            id: DeviceId::new("offline"),
            name: "Offline (in-memory)".to_owned(),
            input_channels: if self.source.channels as u64 > u32::MAX as u64 {
                u32::MAX
            } else {
                self.source.channels as u32
            },
            output_channels: OFFLINE_OUTPUTS,
            default_sample_rate: self.source.sample_rate,
            supported_sample_rates: rates,
            is_default_input: true,
            is_default_output: true,
        }
    }

    /// Open a stream over the source. `silence` is what a cleared playback buffer
    /// holds. The stream is stopped.
    pub fn open_offline<C: AudioCallback<T>>(
        &self,
        config: &StreamConfig,
        callback: C,
        silence: T,
    ) -> (opened: Result<OfflineStream<T, C>, AudioError>)
        requires
            self.wf(),
            self.spec_block() * config.input_channels@.len() <= usize::MAX,
            self.spec_block() * config.output_channels@.len() <= usize::MAX,
        ensures
            opened is Ok <==> !config.idle() && !config.rateless() && all_exist(
                config.input_channels@,
                reported_channels(self.spec_source().channels),
            ) && all_exist(config.output_channels@, OFFLINE_OUTPUTS),
            opened matches Ok(stream) ==> stream.wf() && stream.granted().same(*config)
                && stream.spec_source().samples@ == self.spec_source().samples@
                && stream.spec_source().channels == self.spec_source().channels
                && stream.spec_source().sample_rate == self.spec_source().sample_rate
                && stream.spec_block() == self.spec_block() && stream.spec_position() == 0
                && stream.spec_captured() == Seq::<T>::empty() && !stream.running()
                && stream.spec_silence() == silence && stream.spec_callback() == callback,
            opened matches Err(e) ==> {
                if config.idle() {
                    e == AudioError::NothingToDo
                } else if config.rateless() {
                    e.refuses_rate("stream"@, config.sample_rate)
                } else if !all_exist(
                    config.input_channels@,
                    reported_channels(self.spec_source().channels),
                ) {
                    first_missing(
                        e,
                        config.input_channels@,
                        reported_channels(self.spec_source().channels),
                    )
                } else {
                    first_missing(e, config.output_channels@, OFFLINE_OUTPUTS)
                }
            },
    {
        match config.validate() {
            Err(error) => {
                return Err(error);
            },
            Ok(_) => {},
        }
        let device = self.device();
        match check_channels(
            device.name.as_str(),
            config.input_channels.as_slice(),
            device.input_channels,
        ) {
            Err(error) => {
                assert(first_missing(error, config.input_channels@, device.input_channels));
                return Err(error);
            },
            Ok(_) => {},
        }
        match check_channels(
            device.name.as_str(),
            config.output_channels.as_slice(),
            device.output_channels,
        ) {
            Err(error) => {
                assert(first_missing(error, config.output_channels@, device.output_channels));
                return Err(error);
            },
            Ok(_) => {},
        }
        let inputs: usize = config.input_channels.len();
        let outputs: usize = config.output_channels.len();
        let block: usize = self.block_frames;
        let filler: T = silence;
        let stream = OfflineStream {
            config: config.clone(),
            callback,
            source: Source {
                samples: copy_samples(&self.source.samples),
                channels: self.source.channels,
                sample_rate: self.source.sample_rate,
            },
            position: 0,
            block,
            silence,
            input_scratch: vec![filler; block * inputs],
            output_scratch: vec![filler; block * outputs],
            captured: Vec::new(),
            running: false,
        };
        proof {
            assert forall|i: int| 0 <= i < stream.config.input_channels@.len() implies (
            #[trigger] stream.config.input_channels@[i]) < stream.source.channels by {
                assert(config.input_channels@[i] < device.input_channels);
            }
        }
        Ok(stream)
    }
}

/// Whether `error` names the first channel of `wanted` that the offline device lacks.
pub open spec fn first_missing(error: AudioError, wanted: Seq<u32>, available: u32) -> bool {
    exists|i: int|
        0 <= i < wanted.len() && error.lacks_channel(
            "Offline (in-memory)"@,
            #[trigger] wanted[i],
            available,
        ) && wanted[i] >= available && forall|k: int|
            0 <= k < i ==> #[trigger] wanted[k] < available
}

/// A stream that pulls from memory. Not real-time.
pub struct OfflineStream<T, C> {
    config: StreamConfig,
    callback: C,
    source: Source<T>,
    position: usize,
    block: usize,
    silence: T,
    input_scratch: Vec<T>,
    output_scratch: Vec<T>,
    captured: Vec<T>,
    running: bool,
}

/// What the callback is handed of `frames` frames from `position` on: only the
/// selected channels, in the order requested.
pub open spec fn gathered<T: Copy>(
    source: Source<T>,
    selected: Seq<u32>,
    position: nat,
    frames: nat,
) -> Seq<T> {
    Seq::new(
        frames * selected.len(),
        |i: int|
            source.sample(
                position + i / selected.len() as int,
                selected[i % selected.len() as int] as int,
            ),
    )
}

impl<T: Copy, C: AudioCallback<T>> OfflineStream<T, C> {
    pub closed spec fn spec_source(self) -> Source<T> {
        self.source
    }

    pub closed spec fn spec_block(self) -> usize {
        self.block
    }

    pub closed spec fn spec_silence(self) -> T {
        self.silence
    }

    /// The callback as it stands.
    pub closed spec fn spec_callback(self) -> C {
        self.callback
    }

    /// What the callback finds on the playback side of a block of `frames` frames.
    pub open spec fn cleared(self, frames: nat) -> Seq<T> {
        Seq::new(
            frames * self.granted().output_channels@.len(),
            |i: int| self.spec_silence(),
        )
    }

    /// Whether the callback may go from `before` to `after` over the `frames` frames from
    /// `position` on, leaving `output` to be captured.
    pub open spec fn played(
        self,
        before: C,
        position: nat,
        frames: nat,
        after: C,
        output: Seq<T>,
    ) -> bool {
        C::plays(
            before,
            self.granted().input_channels@.len(),
            self.granted().output_channels@.len(),
            frames,
            gathered(
                self.spec_source(),
                self.granted().input_channels@,
                position,
                frames,
            ),
            self.cleared(frames),
            after,
            output,
        )
    }

    /// Frames of a block that starts at `position`: a whole block, or what is left of
    /// the source.
    pub open spec fn frames_at(self, position: nat) -> nat {
        let left = (self.spec_source().spec_frames() - position) as nat;
        if self.spec_block() <= left {
            self.spec_block() as nat
        } else {
            left
        }
    }

    /// Whether one block may take the stream on from one position, callback and output to
    /// the next.
    pub open spec fn goes_on(
        self,
        from: nat,
        earlier: C,
        before: Seq<T>,
        position: nat,
        callback: C,
        output: Seq<T>,
    ) -> bool {
        &&& self.frames_at(from) > 0
        &&& position == from + self.frames_at(from)
        &&& before.is_prefix_of(output)
        &&& self.played(
            earlier,
            from,
            self.frames_at(from),
            callback,
            output.skip(before.len() as int),
        )
    }

    /// Whether `blocks` blocks, one after the other, may take this stream to `position`
    /// and its callback to `callback`, with `output` captured on the way: each block is
    /// played by the callback that the block before it left.
    pub open spec fn ran(
        self,
        blocks: nat,
        position: nat,
        callback: C,
        output: Seq<T>,
    ) -> bool
        decreases blocks,
    {
        if blocks == 0 {
            position == self.spec_position() && callback == self.spec_callback() && output
                == Seq::<T>::empty()
        } else {
            exists|from: nat, earlier: C, before: Seq<T>| #[trigger]
                self.goes_on(from, earlier, before, position, callback, output) && self.ran(
                    (blocks - 1) as nat,
                    from,
                    earlier,
                    before,
                )
        }
    }

    /// Frames consumed so far.
    pub closed spec fn spec_position(self) -> nat {
        self.position as nat
    }

    /// Everything the callback wrote.
    pub closed spec fn spec_captured(self) -> Seq<T> {
        self.captured@
    }

    /// The capture samples of the block last gathered.
    pub closed spec fn block_input(self, frames: nat) -> Seq<T> {
        self.input_scratch@.take((frames * self.config.input_channels@.len()) as int)
    }

    /// The playback samples as they stand before the callback sees them.
    pub closed spec fn block_output(self, frames: nat) -> Seq<T> {
        self.output_scratch@.take((frames * self.config.output_channels@.len()) as int)
    }

    /// Whether the stream is as far as `other` is, with the same material and the same
    /// output, whether or not either runs.
    pub open spec fn stands_as(self, other: Self) -> bool {
        &&& self.wf() == other.wf()
        &&& self.granted() == other.granted()
        &&& self.spec_source() == other.spec_source()
        &&& self.spec_block() == other.spec_block()
        &&& self.spec_silence() == other.spec_silence()
        &&& self.spec_position() == other.spec_position()
        &&& self.spec_captured() == other.spec_captured()
        &&& self.spec_callback() == other.spec_callback()
    }

    pub closed spec fn buffers_match(self) -> bool {
        &&& self.input_scratch@.len() == self.block * self.config.input_channels@.len()
        &&& self.output_scratch@.len() == self.block * self.config.output_channels@.len()
        &&& forall|i: int|
            0 <= i < self.config.input_channels@.len() ==> (
            #[trigger] self.config.input_channels@[i]) < self.source.channels
    }

    pub open spec fn wf(self) -> bool {
        &&& self.buffers_match()
        &&& self.spec_source().wf()
        &&& self.spec_block() > 0
        &&& self.spec_position() <= self.spec_source().spec_frames()
    }

    /// Frames of the next block.
    pub open spec fn next_frames(self) -> nat {
        self.frames_at(self.spec_position())
    }

    /// Prepare the next block for the callback: gather the selected channels, in
    /// the order requested, and clear the playback side, so that stale contents
    /// are never handed over. Returns its frames, zero once the source is exhausted.
    pub fn gather(&mut self) -> (frames: usize)
        requires
            old(self).wf(),
        ensures
            final(self).wf(),
            frames == old(self).next_frames(),
            final(self).spec_source() == old(self).spec_source(),
            final(self).spec_block() == old(self).spec_block(),
            final(self).spec_silence() == old(self).spec_silence(),
            final(self).spec_position() == old(self).spec_position(),
            final(self).spec_captured() == old(self).spec_captured(),
            final(self).granted() == old(self).granted(),
            final(self).running() == old(self).running(),
            final(self).block_input(frames as nat) == gathered(
                old(self).spec_source(),
                old(self).granted().input_channels@,
                old(self).spec_position(),
                frames as nat,
            ),
            final(self).block_output(frames as nat) == old(self).cleared(frames as nat),
            final(self).spec_callback() == old(self).spec_callback(),
    {
        let remaining: usize = self.source.frames() - self.position;
        let frames: usize = if self.block <= remaining {
            self.block
        } else {
            remaining
        };
        self.gather_input(frames);
        self.clear_output(frames);
        frames
    }

    fn gather_input(&mut self, frames: usize)
        requires
            old(self).wf(),
            frames == old(self).next_frames(),
        ensures
            final(self).buffers_match(),
            final(self).config == old(self).config,
            final(self).callback == old(self).callback,
            final(self).source == old(self).source,
            final(self).position == old(self).position,
            final(self).block == old(self).block,
            final(self).silence == old(self).silence,
            final(self).output_scratch == old(self).output_scratch,
            final(self).captured == old(self).captured,
            final(self).running == old(self).running,
            final(self).block_input(frames as nat) == gathered(
                old(self).spec_source(),
                old(self).config.input_channels@,
                old(self).spec_position(),
                frames as nat,
            ),
    {
        let inputs: usize = self.config.input_channels.len();
        let len: usize = self.source.samples.len();
        let room: usize = self.input_scratch.len();
        let ghost total = frames * inputs;
        let mut frame: usize = 0;
        proof {
            assert(total <= self.input_scratch@.len()) by (nonlinear_arith)
                requires
                    total == frames * inputs,
                    frames <= self.block,
                    self.input_scratch@.len() == self.block * inputs,
            ;
            assert(0 * inputs == 0) by (nonlinear_arith);
        }
        while frame < frames
            invariant
                old(self).wf(),
                self.buffers_match(),
                self.config == old(self).config,
                self.callback == old(self).callback,
                self.source == old(self).source,
                self.position == old(self).position,
                self.block == old(self).block,
                self.silence == old(self).silence,
                self.output_scratch == old(self).output_scratch,
                self.captured == old(self).captured,
                self.running == old(self).running,
                inputs == self.config.input_channels@.len(),
                len == self.source.samples@.len(),
                frame <= frames,
                frames <= self.block,
                self.position + frames <= self.source.spec_frames(),
                total == frames * inputs,
                room == self.input_scratch@.len(),
                total <= room,
                0 <= frame * inputs <= total,
                forall|i: int|
                    0 <= i < frame * inputs ==> #[trigger] self.input_scratch@[i] == gathered(
                        self.source,
                        self.config.input_channels@,
                        self.position as nat,
                        frames as nat,
                    )[i],
            decreases frames - frame,
        {
            proof {
                lemma_product_step(frame as int, frames as int, inputs as int);
                vstd::arithmetic::div_mod::lemma_fundamental_div_mod(
                    len as int,
                    self.source.channels as int,
                );
            }
            let mut slot: usize = 0;
            while slot < inputs
                invariant
                    old(self).wf(),
                    self.buffers_match(),
                    self.config == old(self).config,
                    self.callback == old(self).callback,
                    self.source == old(self).source,
                    self.position == old(self).position,
                    self.block == old(self).block,
                    self.silence == old(self).silence,
                    self.output_scratch == old(self).output_scratch,
                    self.captured == old(self).captured,
                    self.running == old(self).running,
                    inputs == self.config.input_channels@.len(),
                    len == self.source.samples@.len(),
                    frame < frames,
                    slot <= inputs,
                    self.position + frames <= self.source.spec_frames(),
                    total == frames * inputs,
                    room == self.input_scratch@.len(),
                    total <= room,
                    0 <= frame * inputs,
                    frame * inputs + inputs == (frame + 1) * inputs,
                    (frame + 1) * inputs <= total,
                    forall|i: int|
                        0 <= i < frame * inputs + slot ==> #[trigger] self.input_scratch@[i]
                            == gathered(
                            self.source,
                            self.config.input_channels@,
                            self.position as nat,
                            frames as nat,
                        )[i],
                decreases inputs - slot,
            {
                let channel: usize = self.config.input_channels[slot] as usize;
                let ghost at = frame * inputs + slot;
                proof {
                    crate::engine::ring::lemma_frame_index(
                        len as int,
                        self.source.channels as int,
                        self.position + frame,
                        channel as int,
                    );
                    vstd::arithmetic::div_mod::lemma_fundamental_div_mod_converse(
                        at,
                        inputs as int,
                        frame as int,
                        slot as int,
                    );
                    assert((self.position + frame) * self.source.channels + channel < len);
                }
                let sample = self.source.samples[(self.position + frame) * self.source.channels
                    + channel];
                self.input_scratch.set(frame * inputs + slot, sample);
                slot = slot + 1;
            }
            frame = frame + 1;
        }
        assert(self.block_input(frames as nat) =~= gathered(
            self.source,
            self.config.input_channels@,
            self.position as nat,
            frames as nat,
        ));
    }

    fn clear_output(&mut self, frames: usize)
        requires
            old(self).buffers_match(),
            frames <= old(self).block,
        ensures
            final(self).buffers_match(),
            final(self).config == old(self).config,
            final(self).callback == old(self).callback,
            final(self).source == old(self).source,
            final(self).position == old(self).position,
            final(self).block == old(self).block,
            final(self).silence == old(self).silence,
            final(self).input_scratch == old(self).input_scratch,
            final(self).captured == old(self).captured,
            final(self).running == old(self).running,
            final(self).block_output(frames as nat) == Seq::new(
                frames as nat * old(self).config.output_channels@.len(),
                |i: int| old(self).silence,
            ),
    {
        let outputs: usize = self.config.output_channels.len();
        proof {
            assert(0 <= frames * outputs <= self.output_scratch@.len()) by (nonlinear_arith)
                requires
                    0 <= frames <= self.block,
                    0 <= outputs,
                    self.output_scratch@.len() == self.block * outputs,
            ;
        }
        assert(self.output_scratch.len() <= usize::MAX);
        let count: usize = frames * outputs;
        let mut i: usize = 0;
        while i < count
            invariant
                self.buffers_match(),
                self.config == old(self).config,
                self.callback == old(self).callback,
                self.source == old(self).source,
                self.position == old(self).position,
                self.block == old(self).block,
                self.silence == old(self).silence,
                self.input_scratch == old(self).input_scratch,
                self.captured == old(self).captured,
                self.running == old(self).running,
                i <= count,
                count <= self.output_scratch@.len(),
                forall|k: int| 0 <= k < i ==> #[trigger] self.output_scratch@[k] == self.silence,
            decreases count - i,
        {
            self.output_scratch.set(i, self.silence);
            i = i + 1;
        }
        assert(self.block_output(frames as nat) =~= Seq::new(
            frames as nat * outputs as nat,
            |i: int| old(self).silence,
        ));
    }

    /// Run one block through the callback, returning frames processed.
    ///
    /// Returns zero once the source is exhausted. What is captured is whatever
    /// the callback left in the playback buffer of the block.
    pub fn pump(&mut self) -> (frames: usize)
        requires
            old(self).wf(),
        ensures
            final(self).wf(),
            frames == old(self).next_frames(),
            final(self).spec_source() == old(self).spec_source(),
            final(self).spec_block() == old(self).spec_block(),
            final(self).spec_silence() == old(self).spec_silence(),
            final(self).granted() == old(self).granted(),
            final(self).running() == old(self).running(),
            final(self).spec_position() == old(self).spec_position() + frames,
            old(self).spec_captured().is_prefix_of(final(self).spec_captured()),
            final(self).spec_captured().len() == old(self).spec_captured().len() + frames
                * old(self).granted().output_channels@.len(),
            frames == 0 ==> final(self).spec_callback() == old(self).spec_callback(),
            frames > 0 ==> old(self).played(
                old(self).spec_callback(),
                old(self).spec_position(),
                frames as nat,
                final(self).spec_callback(),
                final(self).spec_captured().skip(old(self).spec_captured().len() as int),
            ),
    {
        let frames: usize = self.gather();
        if frames == 0 {
            assert(0 * self.config.output_channels@.len() == 0) by (nonlinear_arith);
            return 0;
        }
        let inputs: usize = self.config.input_channels.len();
        let outputs: usize = self.config.output_channels.len();
        proof {
            assert(0 <= frames * outputs <= self.output_scratch@.len()) by (nonlinear_arith)
                requires
                    0 <= frames <= self.block,
                    0 <= outputs,
                    self.output_scratch@.len() == self.block * outputs,
            ;
            assert(0 <= frames * inputs <= self.input_scratch@.len()) by (nonlinear_arith)
                requires
                    0 <= frames <= self.block,
                    0 <= inputs,
                    self.input_scratch@.len() == self.block * inputs,
            ;
        }
        assert(self.source.samples.len() <= usize::MAX);
        assert(self.input_scratch.len() <= usize::MAX);
        assert(self.output_scratch.len() <= usize::MAX);
        proof {
            vstd::arithmetic::div_mod::lemma_div_nonincreasing(
                self.source.samples@.len() as int,
                self.source.channels as int,
            );
        }
        let taken: usize = frames * inputs;
        let given: usize = frames * outputs;
        let gathered_input = vstd::slice::slice_subrange(self.input_scratch.as_slice(), 0, taken);
        let (cleared_output, _rest) = self.output_scratch.as_mut_slice().split_at_mut(given);
        let mut buffers = AudioBuffers::new(
            gathered_input,
            cleared_output,
            inputs,
            outputs,
            frames,
        );
        assert(buffers.input@ =~= gathered(
            old(self).spec_source(),
            old(self).granted().input_channels@,
            old(self).spec_position(),
            frames as nat,
        ));
        assert(buffers.output@ =~= old(self).cleared(frames as nat));
        self.callback.process(&mut buffers);
        let ghost output = buffers.output@;
        assert(self.output_scratch@.take(given as int) =~= output);
        self.capture(given);
        assert(self.captured@.skip(old(self).captured@.len() as int) =~= output);
        self.position = self.position + frames;
        frames
    }

    /// Append the first `count` playback samples to what was captured.
    fn capture(&mut self, count: usize)
        requires
            count <= old(self).output_scratch@.len(),
        ensures
            final(self).config == old(self).config,
            final(self).callback == old(self).callback,
            final(self).source == old(self).source,
            final(self).position == old(self).position,
            final(self).block == old(self).block,
            final(self).silence == old(self).silence,
            final(self).input_scratch == old(self).input_scratch,
            final(self).output_scratch == old(self).output_scratch,
            final(self).running == old(self).running,
            final(self).captured@ == old(self).captured@ + old(self).output_scratch@.take(
                count as int,
            ),
    {
        let mut i: usize = 0;
        assert(self.captured@ + self.output_scratch@.take(0) =~= self.captured@);
        while i < count
            invariant
                i <= count,
                count <= self.output_scratch@.len(),
                self.config == old(self).config,
                self.callback == old(self).callback,
                self.source == old(self).source,
                self.position == old(self).position,
                self.block == old(self).block,
                self.silence == old(self).silence,
                self.input_scratch == old(self).input_scratch,
                self.output_scratch == old(self).output_scratch,
                self.running == old(self).running,
                self.captured@ == old(self).captured@ + self.output_scratch@.take(i as int),
            decreases count - i,
        {
            let sample = self.output_scratch[i];
            self.captured.push(sample);
            i = i + 1;
            assert(self.output_scratch@.take(i as int) =~= self.output_scratch@.take(i - 1).push(
                sample,
            ));
        }
    }

    /// Run the whole source through the callback, returning total frames.
    pub fn run_to_end(&mut self) -> (total: usize)
        requires
            old(self).wf(),
        ensures
            final(self).wf(),
            total == old(self).spec_source().spec_frames() - old(self).spec_position(),
            final(self).spec_source() == old(self).spec_source(),
            final(self).spec_block() == old(self).spec_block(),
            final(self).spec_silence() == old(self).spec_silence(),
            final(self).granted() == old(self).granted(),
            final(self).running() == old(self).running(),
            final(self).spec_position() == old(self).spec_source().spec_frames(),
            old(self).spec_captured().is_prefix_of(final(self).spec_captured()),
            final(self).spec_captured().len() == old(self).spec_captured().len() + total
                * old(self).granted().output_channels@.len(),
            exists|blocks: nat| #[trigger]
                old(self).ran(
                    blocks,
                    final(self).spec_position(),
                    final(self).spec_callback(),
                    final(self).spec_captured().skip(old(self).spec_captured().len() as int),
                ),
    {
        let mut total: usize = 0;
        let ghost mut blocks: nat = 0;
        let ghost start = self.spec_captured().len() as int;
        assert(self.spec_captured().skip(start) =~= Seq::<T>::empty());
        let ghost outputs = self.granted().output_channels@.len();
        assert(0 * outputs == 0) by (nonlinear_arith);
        loop
            invariant
                self.wf(),
                self.spec_source() == old(self).spec_source(),
                self.spec_block() == old(self).spec_block(),
                self.granted() == old(self).granted(),
                self.running() == old(self).running(),
                self.spec_position() == old(self).spec_position() + total,
                outputs == old(self).granted().output_channels@.len(),
                old(self).spec_captured().is_prefix_of(self.spec_captured()),
                self.spec_captured().len() == old(self).spec_captured().len() + total * outputs,
                self.spec_silence() == old(self).spec_silence(),
                start == old(self).spec_captured().len(),
                old(self).ran(
                    blocks,
                    self.spec_position(),
                    self.spec_callback(),
                    self.spec_captured().skip(start),
                ),
            decreases self.spec_source().spec_frames() - self.spec_position(),
        {
            assert(self.source.samples.len() <= usize::MAX);
            proof {
                vstd::arithmetic::div_mod::lemma_div_nonincreasing(
                    self.source.samples@.len() as int,
                    self.source.channels as int,
                );
            }
            let ghost here = *self;
            let frames: usize = self.pump();
            if frames == 0 {
                assert(0 * outputs == 0) by (nonlinear_arith);
                assert(self.spec_captured() =~= here.spec_captured());
                return total;
            }
            proof {
                let (before, after) = (
                    here.spec_captured().skip(start),
                    self.spec_captured().skip(start),
                );
                assert(before.is_prefix_of(after)) by {
                    assert(before =~= after.subrange(0, before.len() as int));
                }
                assert(after.skip(before.len() as int) =~= self.spec_captured().skip(
                    here.spec_captured().len() as int,
                ));
                assert(here.cleared(frames as nat) =~= old(self).cleared(frames as nat));
                assert(old(self).played(
                    here.spec_callback(),
                    here.spec_position(),
                    frames as nat,
                    self.spec_callback(),
                    after.skip(before.len() as int),
                ));
                assert(old(self).goes_on(
                    here.spec_position(),
                    here.spec_callback(),
                    before,
                    self.spec_position(),
                    self.spec_callback(),
                    after,
                ));
                blocks = blocks + 1;
            }
            assert((total + frames) * outputs == total * outputs + frames * outputs)
                by (nonlinear_arith);
            total = total + frames;
        }
    }

    /// Everything the callback wrote, interleaved across the selected output
    /// channels.
    pub fn captured_output(&self) -> (samples: &[T])
        ensures
            samples@ == self.spec_captured(),
    {
        self.captured.as_slice()
    }

    /// Frames consumed so far.
    pub fn position(&self) -> (position: usize)
        ensures
            position == self.spec_position(),
    {
        self.position
    }

    /// Rewind and discard captured output.
    pub fn rewind(&mut self)
        requires
            old(self).wf(),
        ensures
            final(self).wf(),
            final(self).spec_source() == old(self).spec_source(),
            final(self).spec_block() == old(self).spec_block(),
            final(self).spec_silence() == old(self).spec_silence(),
            final(self).granted() == old(self).granted(),
            final(self).running() == old(self).running(),
            final(self).spec_position() == 0,
            final(self).spec_captured() == Seq::<T>::empty(),
            final(self).spec_callback() == old(self).spec_callback(),
    {
        self.position = 0;
        self.captured.clear();
    }
}

proof fn lemma_product_step(frame: int, frames: int, width: int)
    requires
        0 <= frame < frames,
        0 <= width,
    ensures
        0 <= frame * width,
        frame * width + width == (frame + 1) * width,
        (frame + 1) * width <= frames * width,
{
    assert(0 <= frame * width && frame * width + width == (frame + 1) * width && (frame + 1) * width
        <= frames * width) by (nonlinear_arith)
        requires
            0 <= frame < frames,
            0 <= width,
    ;
}

impl<T: Copy, C: AudioCallback<T>> AudioStream for OfflineStream<T, C> {
    closed spec fn running(&self) -> bool {
        self.running
    }

    closed spec fn granted(&self) -> StreamConfig {
        self.config
    }

    /// Nothing can refuse, so only a stream that runs already fails to start.
    fn start(&mut self) -> (started: Result<(), AudioError>)
        ensures
            !old(self).running() ==> started is Ok,
            final(self).stands_as(*old(self)),
    {
        if self.running {
            return Err(AudioError::AlreadyRunning);
        }
        self.running = true;
        Ok(())
    }

    fn stop(&mut self) -> (stopped: Result<(), AudioError>)
        ensures
            stopped is Ok,
            final(self).stands_as(*old(self)),
    {
        self.running = false;
        Ok(())
    }

    fn is_running(&self) -> (running: bool) {
        self.running
    }

    fn config(&self) -> (config: &StreamConfig) {
        &self.config
    }

    /// Nothing physical is involved, so there is no latency to report.
    fn latency(&self) -> (latency: StreamLatency)
        ensures
            latency == (StreamLatency {
                input_frames: 0,
                output_frames: 0,
                safety_offset_frames: 0,
            }),
    {
        StreamLatency { input_frames: 0, output_frames: 0, safety_offset_frames: 0 }
    }
}

/// What is handed over in two blocks is what is handed over in one: the size of a
/// block makes no difference to the samples.
pub proof fn lemma_gather_in_blocks<T: Copy>(
    source: Source<T>,
    selected: Seq<u32>,
    position: nat,
    first: nat,
    second: nat,
)
    ensures
        gathered(source, selected, position, first) + gathered(
            source,
            selected,
            position + first,
            second,
        ) == gathered(source, selected, position, first + second),
{
    let n = selected.len() as int;
    let once = gathered(source, selected, position, first + second);
    let before = gathered(source, selected, position, first);
    let after = gathered(source, selected, position + first, second);
    assert((first + second) * n == first * n + second * n) by (nonlinear_arith);
    assert(first * n >= 0 && second * n >= 0) by (nonlinear_arith)
        requires
            n >= 0,
            first >= 0,
            second >= 0,
    ;
    assert forall|i: int| 0 <= i < once.len() implies once[i] == #[trigger] (before + after)[i] by {
        if n == 0 {
            assert(once.len() == 0) by (nonlinear_arith)
                requires
                    once.len() == (first + second) * n,
                    n == 0,
            ;
        } else if i >= first * n {
            let rest = i - first * n;
            vstd::arithmetic::div_mod::lemma_fundamental_div_mod(rest, n);
            vstd::arithmetic::div_mod::lemma_mod_bound(rest, n);
            assert(i == (first + rest / n) * n + rest % n) by (nonlinear_arith)
                requires
                    rest == n * (rest / n) + rest % n,
                    i == first * n + rest,
            ;
            vstd::arithmetic::div_mod::lemma_fundamental_div_mod_converse(
                i,
                n,
                first + rest / n,
                rest % n,
            );
            assert((before + after)[i] == after[rest]);
        }
    }
    assert(before + after =~= once);
}

/// The callback is handed, in each frame and slot, the sample of the channel that the slot
/// selects, in the frame of the source that many frames after the position.
pub proof fn lemma_gathered_sample<T: Copy>(
    source: Source<T>,
    selected: Seq<u32>,
    position: nat,
    frames: nat,
    frame: int,
    slot: int,
)
    requires
        0 <= frame < frames,
        0 <= slot < selected.len(),
    ensures
        gathered(source, selected, position, frames).len() == frames * selected.len(),
        gathered(source, selected, position, frames)[frame * selected.len() + slot]
            == source.samples@[(position + frame) * source.channels + selected[slot]],
{
    let width = selected.len() as int;
    assert(0 <= frame * width + slot < frames * width) by (nonlinear_arith)
        requires
            0 <= frame < frames,
            0 <= slot < width,
    ;
    vstd::arithmetic::div_mod::lemma_fundamental_div_mod_converse(
        frame * width + slot,
        width,
        frame,
        slot,
    );
}

/// Blocks take a stream through its source without gap or overlap: after so many blocks
/// it stands that many blocks on, or at the end.
pub proof fn lemma_blocks_cover_the_source<T: Copy, C: AudioCallback<T>>(
    stream: OfflineStream<T, C>,
    blocks: nat,
    position: nat,
    callback: C,
    output: Seq<T>,
)
    requires
        stream.spec_position() <= stream.spec_source().spec_frames(),
        stream.ran(blocks, position, callback, output),
    ensures
        position <= stream.spec_source().spec_frames(),
        position == stream.spec_position() + blocks * stream.spec_block() || position
            == stream.spec_source().spec_frames(),
        position <= stream.spec_position() + blocks * stream.spec_block(),
        blocks > 0 ==> position > stream.spec_position() + (blocks - 1) * stream.spec_block(),
    decreases blocks,
{
    if blocks > 0 {
        let (from, earlier, before) = choose|from: nat, earlier: C, before: Seq<T>|
            #[trigger] stream.goes_on(from, earlier, before, position, callback, output)
                && stream.ran((blocks - 1) as nat, from, earlier, before);
        lemma_blocks_cover_the_source(stream, (blocks - 1) as nat, from, earlier, before);
        let block = stream.spec_block() as int;
        assert(blocks * block == (blocks - 1) * block + block) by (nonlinear_arith);
    }
}

} // verus!

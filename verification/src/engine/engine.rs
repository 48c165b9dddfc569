//! The analysis worker and the graph it runs.
//!
//! The worker sits between an audio callback and a user interface: it drains the
//! ring, feeds the analyzers, and publishes a [`SpectrumFrame`] whenever new
//! frames complete. Who runs it, and when, is the business of whoever owns the
//! thread.
//!
//! There is no reconfiguration: changing the transform size, the window or the
//! channel count means starting another worker.

use vstd::prelude::*;

use crate::arith::{Arith, Calc};
use crate::dsp::spectrum;
use crate::dsp::spectrum::{Averaging, Overlap, SpectrumConfig};
use crate::dsp::transfer::{TransferAveraging, TransferConfig};
use crate::dsp::window::WindowKind;
use crate::engine::alignment;
use crate::engine::alignment::{longest_delay, Estimate};
use crate::engine::ring;
use crate::ieee::F32;
use crate::numbers::{num, ZERO};

verus! {

/// Frames read from the ring per pass.
///
/// This bound is load-bearing. Draining until the ring is empty lets a producer
/// that keeps it topped up starve publication; reading a bounded amount and then
/// publishing guarantees progress no matter how fast audio arrives.
pub const DRAIN_FRAMES: usize = 4096;

/// How fast the live transfer function follows, fifteen hundredths.
pub const TRANSFER_ALPHA: u32 = 0x3E19_999A;

/// One published analysis result.
#[derive(Debug, PartialEq)]
pub struct SpectrumFrame {
    /// Increments once per publication. Lets a reader tell a repeat from a
    /// genuinely new frame.
    pub sequence: u64,
    /// Level per bin of the live trace.
    pub bins: Vec<F32>,
    /// The same spectrum under long-term averaging, accumulated independently.
    pub average_bins: Vec<F32>,
    /// Frames folded into the long-term average.
    pub average_frames: u32,
    /// Hertz between adjacent bins.
    pub bin_spacing_hz: F32,
    /// Rate the analysis ran at.
    pub sample_rate: F32,
    /// Frames folded into the current average.
    pub frames_averaged: u32,
    /// Blocks the audio callback had to drop. Non-zero invalidates the measurement.
    pub overruns: u64,
    /// Transfer function magnitude per bin, in decibels. Empty in
    /// [`AnalysisMode::Spectrum`].
    pub transfer_magnitude_db: Vec<F32>,
    /// Transfer function phase per bin, in degrees.
    pub transfer_phase_degrees: Vec<F32>,
    /// Coherence per bin.
    pub transfer_coherence: Vec<F32>,
    /// Samples of delay currently applied to the reference channel.
    pub transfer_delay_frames: u32,
    /// Frames folded into the transfer function average.
    pub transfer_frames: u32,
}

impl SpectrumFrame {
    /// Whether two frames show the same.
    pub open spec fn same(self, other: SpectrumFrame) -> bool {
        &&& self.sequence == other.sequence
        &&& self.bins@ == other.bins@
        &&& self.average_bins@ == other.average_bins@
        &&& self.average_frames == other.average_frames
        &&& self.bin_spacing_hz == other.bin_spacing_hz
        &&& self.sample_rate == other.sample_rate
        &&& self.frames_averaged == other.frames_averaged
        &&& self.overruns == other.overruns
        &&& self.transfer_magnitude_db@ == other.transfer_magnitude_db@
        &&& self.transfer_phase_degrees@ == other.transfer_phase_degrees@
        &&& self.transfer_coherence@ == other.transfer_coherence@
        &&& self.transfer_delay_frames == other.transfer_delay_frames
        &&& self.transfer_frames == other.transfer_frames
    }

    /// Centre frequency of bin `index`.
    pub fn bin_frequency<C: Fn(Calc) -> F32>(&self, m: &Arith<C>, index: usize) -> (hz: F32)
        ensures
            hz == m.times(m.count(index), self.bin_spacing_hz),
    {
        m.times(m.count(index), self.bin_spacing_hz)
    }

    /// The frame to show before anything was measured: `bins` bins at the floor.
    pub fn initial(bins: usize, bin_spacing_hz: F32, sample_rate: F32) -> (frame: SpectrumFrame)
        ensures
            blank(frame, bins as nat, bin_spacing_hz, sample_rate),
    {
        let floor = num(spectrum::DB_FLOOR);
        let frame = SpectrumFrame {
            sequence: 0,
            bins: vec![floor; bins],
            average_bins: vec![floor; bins],
            average_frames: 0,
            bin_spacing_hz,
            sample_rate,
            frames_averaged: 0,
            overruns: 0,
            transfer_magnitude_db: Vec::new(),
            transfer_phase_degrees: Vec::new(),
            transfer_coherence: Vec::new(),
            transfer_delay_frames: 0,
            transfer_frames: 0,
        };
        assert(frame.bins@ =~= Seq::new(
            bins as nat,
            |k: int| num(spectrum::DB_FLOOR),
        ));
        assert(frame.average_bins@ =~= frame.bins@);
        frame
    }
}

/// Whether a frame shows that nothing was measured yet.
pub open spec fn blank(
    frame: SpectrumFrame,
    bins: nat,
    bin_spacing_hz: F32,
    sample_rate: F32,
) -> bool {
    &&& frame.sequence == 0
    &&& frame.bins@ == Seq::new(bins, |k: int| num(spectrum::DB_FLOOR))
    &&& frame.average_bins@ == frame.bins@
    &&& frame.average_frames == 0
    &&& frame.bin_spacing_hz == bin_spacing_hz
    &&& frame.sample_rate == sample_rate
    &&& frame.frames_averaged == 0
    &&& frame.overruns == 0
    &&& frame.transfer_magnitude_db@.len() == 0
    &&& frame.transfer_phase_degrees@.len() == 0
    &&& frame.transfer_coherence@.len() == 0
    &&& frame.transfer_delay_frames == 0
    &&& frame.transfer_frames == 0
}

impl Default for SpectrumFrame {
    fn default() -> (frame: SpectrumFrame)
        ensures
            blank(frame, 0, num(ZERO), num(ZERO)),
    {
        SpectrumFrame::initial(0, num(ZERO), num(ZERO))
    }
}

impl Clone for SpectrumFrame {
    fn clone(&self) -> (frame: SpectrumFrame)
        ensures
            frame.same(*self),
    {
        SpectrumFrame {
            sequence: self.sequence,
            bins: self.bins.clone(),
            average_bins: self.average_bins.clone(),
            average_frames: self.average_frames,
            bin_spacing_hz: self.bin_spacing_hz,
            sample_rate: self.sample_rate,
            frames_averaged: self.frames_averaged,
            overruns: self.overruns,
            transfer_magnitude_db: self.transfer_magnitude_db.clone(),
            transfer_phase_degrees: self.transfer_phase_degrees.clone(),
            transfer_coherence: self.transfer_coherence.clone(),
            transfer_delay_frames: self.transfer_delay_frames,
            transfer_frames: self.transfer_frames,
        }
    }
}

/// What the engine computes.
#[derive(Debug, Clone, Copy, PartialEq, Eq, Structural)]
pub enum AnalysisMode {
    /// A single-channel spectrum. The live trace and its long-term average.
    Spectrum,
    /// A two-channel transfer function alongside the spectrum.
    Transfer {
        /// Channel carrying what was sent.
        reference_channel: usize,
        /// Channel carrying what was heard.
        measurement_channel: usize,
    },
}

impl Default for AnalysisMode {
    fn default() -> (mode: AnalysisMode)
        ensures
            mode == AnalysisMode::Spectrum,
    {
        AnalysisMode::Spectrum
    }
}

/// How to set the engine up.
#[derive(Debug, Clone, Copy, PartialEq, Eq, Structural)]
pub struct EngineConfig {
    /// Channels the audio callback will deliver, interleaved.
    pub channels: usize,
    /// Which of them to analyse.
    pub analysis_channel: usize,
    /// Spectrum settings, including sample rate and transform size.
    pub spectrum: SpectrumConfig,
    /// Averaging for the long-term trace. Everything else is taken from
    /// `spectrum`, so the two analyzers differ only in how they average.
    pub average: Averaging,
    /// What to compute.
    pub mode: AnalysisMode,
    /// Ring capacity, sized by worst-case scheduling latency.
    pub ring_capacity_frames: usize,
}

/// What is inconsistent in a configuration.
#[derive(Debug, Clone, Copy, PartialEq, Eq, Structural)]
pub enum ConfigProblem {
    /// The engine needs at least one channel.
    NoChannels,
    /// The analysis channel does not exist.
    NoSuchChannel,
    /// A transfer channel does not exist.
    NoSuchTransferChannel,
    /// The same channel against itself is a wire, not a measurement.
    SameTransferChannel,
    /// The ring must hold at least one frame.
    EmptyRing,
    /// No analyzer can be built from the spectrum settings.
    BadSpectrum,
    /// The buffers would be larger than the machine can address.
    TooLarge,
}

impl EngineConfig {
    /// Single-channel capture at the given rate, with sensible defaults.
    pub fn mono(sample_rate: F32) -> (config: EngineConfig)
        ensures
            config == (EngineConfig {
                channels: 1,
                analysis_channel: 0,
                spectrum: SpectrumConfig {
                    sample_rate,
                    size: 4096,
                    window: WindowKind::Hann,
                    overlap: Overlap::ThreeQuarters,
                    averaging: Averaging::Off,
                },
                average: Averaging::Infinite,
                mode: AnalysisMode::Spectrum,
                ring_capacity_frames: 8192,
            }),
    {
        let mut settings = SpectrumConfig::default();
        settings.sample_rate = sample_rate;
        EngineConfig {
            channels: 1,
            analysis_channel: 0,
            spectrum: settings,
            average: Averaging::Infinite,
            mode: AnalysisMode::Spectrum,
            ring_capacity_frames: 8192,
        }
    }

    /// The first inconsistency, in the order in which they are looked for.
    pub open spec fn spec_problem(self) -> Option<ConfigProblem> {
        if self.channels == 0 {
            Some(ConfigProblem::NoChannels)
        } else if self.analysis_channel >= self.channels {
            Some(ConfigProblem::NoSuchChannel)
        } else if self.mode matches AnalysisMode::Transfer {
            reference_channel,
            measurement_channel,
        } && (reference_channel >= self.channels || measurement_channel >= self.channels) {
            Some(ConfigProblem::NoSuchTransferChannel)
        } else if self.mode matches AnalysisMode::Transfer {
            reference_channel,
            measurement_channel,
        } && reference_channel == measurement_channel {
            Some(ConfigProblem::SameTransferChannel)
        } else if self.ring_capacity_frames == 0 {
            Some(ConfigProblem::EmptyRing)
        } else if !self.spectrum.valid() {
            Some(ConfigProblem::BadSpectrum)
        } else if !self.fits() {
            Some(ConfigProblem::TooLarge)
        } else {
            None
        }
    }

    /// Whether the ring, the buffers of one pass and a second of delay can be
    /// addressed.
    pub open spec fn fits(self) -> bool {
        &&& self.channels * self.ring_capacity_frames * 4 <= isize::MAX
        &&& DRAIN_FRAMES * self.channels <= usize::MAX
        &&& alignment::second_of(self.spectrum.sample_rate) < usize::MAX
    }

    /// The first inconsistency, if there is one.
    pub fn problem(&self) -> (problem: Option<ConfigProblem>)
        ensures
            problem == self.spec_problem(),
    {
        if self.channels == 0 {
            return Some(ConfigProblem::NoChannels);
        }
        if self.analysis_channel >= self.channels {
            return Some(ConfigProblem::NoSuchChannel);
        }
        match self.mode {
            AnalysisMode::Spectrum => {},
            AnalysisMode::Transfer { reference_channel, measurement_channel } => {
                if reference_channel >= self.channels || measurement_channel >= self.channels {
                    return Some(ConfigProblem::NoSuchTransferChannel);
                }
                if reference_channel == measurement_channel {
                    return Some(ConfigProblem::SameTransferChannel);
                }
            },
        }
        if self.ring_capacity_frames == 0 {
            return Some(ConfigProblem::EmptyRing);
        }
        if !self.spectrum.is_valid() {
            return Some(ConfigProblem::BadSpectrum);
        }
        let words: Option<usize> = self.channels.checked_mul(self.ring_capacity_frames);
        let bytes: Option<usize> = match words {
            Some(words) => words.checked_mul(4),
            None => None,
        };
        let ring_fits = match bytes {
            Some(bytes) => bytes <= usize::MAX / 2,
            None => false,
        };
        let pass_fits = match DRAIN_FRAMES.checked_mul(self.channels) {
            Some(_) => true,
            None => false,
        };
        if !ring_fits || !pass_fits || longest_delay(self.spectrum.sample_rate) == usize::MAX {
            return Some(ConfigProblem::TooLarge);
        }
        None
    }

    /// The channel whose spectrum is shown. In transfer mode the spectrum follows
    /// the measurement channel, so the level shown is the level being measured
    /// rather than the stimulus.
    pub open spec fn spec_analysed(self) -> usize {
        match self.mode {
            AnalysisMode::Spectrum => self.analysis_channel,
            AnalysisMode::Transfer { measurement_channel, .. } => measurement_channel,
        }
    }

    pub fn analysed_channel(&self) -> (channel: usize)
        ensures
            channel == self.spec_analysed(),
    {
        match self.mode {
            AnalysisMode::Spectrum => self.analysis_channel,
            AnalysisMode::Transfer { measurement_channel, .. } => measurement_channel,
        }
    }

    /// The settings of the long-term analyzer.
    pub open spec fn spec_average_settings(self) -> SpectrumConfig {
        SpectrumConfig { averaging: self.average, ..self.spectrum }
    }

    /// The settings of the transfer function, which only transfer mode has.
    pub open spec fn spec_transfer_settings(self) -> TransferConfig {
        TransferConfig {
            sample_rate: self.spectrum.sample_rate,
            size: self.spectrum.size,
            window: self.spectrum.window,
            overlap: self.spectrum.overlap,
            averaging: TransferAveraging::Exponential { alpha: num(TRANSFER_ALPHA) },
        }
    }

    pub fn transfer_settings(&self) -> (settings: TransferConfig)
        ensures
            settings == self.spec_transfer_settings(),
    {
        TransferConfig {
            sample_rate: self.spectrum.sample_rate,
            size: self.spectrum.size,
            window: self.spectrum.window,
            overlap: self.spectrum.overlap,
            averaging: TransferAveraging::Exponential { alpha: num(TRANSFER_ALPHA) },
        }
    }
}

/// What the outside asks of one pass.
#[derive(Debug, Clone, Copy, PartialEq, Eq, Structural)]
pub struct Controls {
    /// Restart the long-term average.
    pub reset_average: bool,
    /// Measure the delay of the reference and apply it.
    pub estimate_delay: bool,
    /// Delay to apply to the reference, in samples.
    pub reference_delay: u32,
}

/// What came of one pass.
#[derive(Debug, Clone, Copy, PartialEq, Eq, Structural)]
pub struct Pass {
    /// Frames taken from the ring.
    pub frames: usize,
    /// Spectrum frames completed. Something is to be published if there are any.
    pub produced: usize,
    /// What became of the request to estimate the delay.
    pub estimate: Estimate,
    /// The delay applied to the reference in this pass.
    pub reference_delay: u32,
}

impl Controls {
    /// What is asked of the next pass, once this one has been answered: a reset is
    /// over, and so is a request for an estimate that was found or cannot be had. What
    /// was found is applied from here on.
    pub fn after(self, pass: Pass) -> (next: Controls)
        ensures
            next == (Controls {
                reset_average: false,
                estimate_delay: self.estimate_delay && !(pass.estimate is Found)
                    && !(pass.estimate is Impossible),
                reference_delay: pass.reference_delay,
            }),
    {
        let over: bool = match pass.estimate {
            Estimate::Found { .. } => true,
            Estimate::Impossible => true,
            Estimate::Idle => false,
            Estimate::Waiting => false,
        };
        Controls {
            reset_average: false,
            estimate_delay: self.estimate_delay && !over,
            reference_delay: pass.reference_delay,
        }
    }
}

/// One channel of the leading `frames` frames of an interleaved block of bit
/// patterns, as numbers.
pub open spec fn lifted(block: Seq<u32>, channels: nat, channel: nat, frames: nat) -> Seq<F32> {
    Seq::new(
        frames,
        |f: int| num(ring::channel_sample(block, channels as int, channel as int, f)),
    )
}

/// Lift one channel of the leading `frames` frames out of an interleaved block.
pub fn lift_channel(block: &[u32], channels: usize, channel: usize, frames: usize) -> (samples: Vec<
    F32,
>)
    requires
        channel < channels,
        frames * channels <= block@.len(),
    ensures
        samples@ == lifted(block@, channels as nat, channel as nat, frames as nat),
{
    let len: usize = block.len();
    let mut samples: Vec<F32> = Vec::new();
    let mut frame: usize = 0;
    while frame < frames
        invariant
            channel < channels,
            len == block@.len(),
            frames * channels <= len,
            frame <= frames,
            samples@.len() == frame,
            forall|f: int|
                0 <= f < frame ==> #[trigger] samples@[f] == num(
                    ring::channel_sample(block@, channels as int, channel as int, f),
                ),
        decreases frames - frame,
    {
        assert(0 <= frame * channels && frame * channels + channel < frames * channels)
            by (nonlinear_arith)
            requires
                0 <= frame < frames,
                0 <= channel < channels,
        ;
        samples.push(num(block[frame * channels + channel]));
        frame = frame + 1;
    }
    assert(samples@ =~= lifted(block@, channels as nat, channel as nat, frames as nat));
    samples
}

/// A configuration has no problem exactly where it has channels, analyses ones that are
/// there, compares two different ones, holds a frame, and can be built and addressed.
pub proof fn lemma_when_a_configuration_works(config: EngineConfig)
    ensures
        config.spec_problem() is None <==> {
            &&& config.channels > 0
            &&& config.analysis_channel < config.channels
            &&& config.mode matches AnalysisMode::Transfer {
                reference_channel,
                measurement_channel,
            } ==> reference_channel < config.channels && measurement_channel < config.channels
                && reference_channel != measurement_channel
            &&& config.ring_capacity_frames > 0
            &&& num(ZERO).less(config.spectrum.sample_rate)
            &&& config.spectrum.size >= 2
            &&& config.spectrum.size % 2 == 0
            &&& config.channels * config.ring_capacity_frames * 4 <= isize::MAX
            &&& DRAIN_FRAMES * config.channels <= usize::MAX
            &&& alignment::second_of(config.spectrum.sample_rate) < usize::MAX
        },
        config.spec_problem() matches Some(problem) ==> match problem {
            ConfigProblem::NoChannels => config.channels == 0,
            ConfigProblem::NoSuchChannel => config.analysis_channel >= config.channels,
            ConfigProblem::NoSuchTransferChannel => config.mode matches AnalysisMode::Transfer {
                reference_channel,
                measurement_channel,
            } && (reference_channel >= config.channels || measurement_channel >= config.channels),
            ConfigProblem::SameTransferChannel => config.mode matches AnalysisMode::Transfer {
                reference_channel,
                measurement_channel,
            } && reference_channel == measurement_channel,
            ConfigProblem::EmptyRing => config.ring_capacity_frames == 0,
            ConfigProblem::BadSpectrum => !num(ZERO).less(config.spectrum.sample_rate)
                || config.spectrum.size < 2 || config.spectrum.size % 2 != 0,
            ConfigProblem::TooLarge => config.channels * config.ring_capacity_frames * 4
                > isize::MAX || DRAIN_FRAMES * config.channels > usize::MAX
                || alignment::second_of(config.spectrum.sample_rate) >= usize::MAX,
        },
{
}

/// A lifted channel has in each frame the sample that stands there in the block.
pub proof fn lemma_lifted_sample(block: Seq<u32>, channels: nat, channel: nat, frames: nat, f: int)
    requires
        0 <= f < frames,
    ensures
        lifted(block, channels, channel, frames).len() == frames,
        lifted(block, channels, channel, frames)[f] == num(block[f * channels + channel]),
{
}

/// A configuration shows the channel that it analyses, in transfer mode the one that is
/// measured, and its estimators differ from one another in how they average alone.
pub proof fn lemma_settings_of_a_configuration(config: EngineConfig)
    ensures
        config.mode is Spectrum ==> config.spec_analysed() == config.analysis_channel,
        config.mode matches AnalysisMode::Transfer { measurement_channel, .. }
            ==> config.spec_analysed() == measurement_channel,
        config.spec_average_settings().averaging == config.average,
        (SpectrumConfig {
            averaging: config.spectrum.averaging,
            ..config.spec_average_settings()
        }) == config.spectrum,
        ({
            let transfer = config.spec_transfer_settings();
            &&& transfer.sample_rate == config.spectrum.sample_rate
            &&& transfer.size == config.spectrum.size
            &&& transfer.window == config.spectrum.window
            &&& transfer.overlap == config.spectrum.overlap
            &&& transfer.averaging matches TransferAveraging::Exponential { alpha }
                && alpha == num(TRANSFER_ALPHA)
        }),
{
}

} // verus!

//! Overlapped power spectrum estimation with averaging.
//!
//! A single transform of anything noise-like is a very noisy estimate. Welch's
//! method averages the power spectra of many overlapped frames, which trades time
//! resolution for variance.
//!
//! Power is mean-square per bin: a bin-centred sinusoid of amplitude `A` reads
//! `A * A / 2` in its peak bin for every window. Levels count a full-scale sine as
//! 0 dBFS.

use vstd::prelude::*;

use crate::arith::{Arith, Calc, Complex};
use crate::dsp::fft::Forward;
use crate::dsp::framing;
use crate::dsp::framing::SlidingFrame;
use crate::dsp::window;
use crate::dsp::window::{Window, WindowKind};
use crate::ieee::F32;
use crate::numbers::{num, MINUS_ONE, ONE, SMALLEST_NORMAL, TEN, TWO, ZERO};

verus! {

/// Floor of a level, minus two hundred decibels, so that empty bins produce a
/// finite number.
pub const DB_FLOOR: u32 = 0xC348_0000;

/// Fraction of each frame reused by the next one.
///
/// More overlap means more averages per second and a smoother display, at
/// proportionally more CPU.
#[derive(Debug, Clone, Copy, PartialEq, Eq, Structural)]
pub enum Overlap {
    /// Frames do not overlap; hop equals the frame size.
    Off,
    /// 50% overlap.
    Half,
    /// 75% overlap.
    ThreeQuarters,
    /// 87.5% overlap.
    SevenEighths,
}

impl Default for Overlap {
    fn default() -> (overlap: Overlap)
        ensures
            overlap == Overlap::ThreeQuarters,
    {
        Overlap::ThreeQuarters
    }
}

impl Overlap {
    /// The share of a frame of `size` samples that the next frame does not reuse,
    /// at least one sample.
    pub open spec fn spec_hop(self, size: nat) -> nat {
        let share = match self {
            Overlap::Off => size,
            Overlap::Half => size / 2,
            Overlap::ThreeQuarters => size / 4,
            Overlap::SevenEighths => size / 8,
        };
        if share == 0 {
            1
        } else {
            share
        }
    }

    /// Samples advanced between consecutive frames.
    pub fn hop(self, size: usize) -> (hop: usize)
        ensures
            hop == self.spec_hop(size as nat),
            0 < hop,
            size > 0 ==> hop <= size,
    {
        let hop: usize = match self {
            Overlap::Off => size,
            Overlap::Half => size / 2,
            Overlap::ThreeQuarters => size / 4,
            Overlap::SevenEighths => size / 8,
        };
        if hop < 1 {
            1
        } else {
            hop
        }
    }

    /// The overlap as a fraction of the frame, for display.
    pub fn fraction(self) -> (fraction: F32)
        ensures
            fraction == (match self {
                Overlap::Off => num(ZERO),
                Overlap::Half => F32 { bits: 0x3F00_0000 },
                Overlap::ThreeQuarters => F32 { bits: 0x3F40_0000 },
                Overlap::SevenEighths => F32 { bits: 0x3F60_0000 },
            }),
    {
        match self {
            Overlap::Off => num(ZERO),
            Overlap::Half => F32 { bits: 0x3F00_0000 },
            Overlap::ThreeQuarters => F32 { bits: 0x3F40_0000 },
            Overlap::SevenEighths => F32 { bits: 0x3F60_0000 },
        }
    }
}

/// How successive frames are combined.
#[derive(Debug, Clone, Copy, PartialEq, Eq, Structural)]
pub enum Averaging {
    /// Each frame replaces the previous one. Noisy, but maximally responsive.
    Off,
    /// Exponential moving average: `avg = alpha * new + (1 - alpha) * avg`.
    Exponential { alpha: F32 },
    /// Average the first `frames` frames, then hold.
    Linear { frames: u32 },
    /// Average every frame since the last reset.
    Infinite,
    /// Retain the maximum seen in each bin since the last reset.
    PeakHold,
}

impl Default for Averaging {
    fn default() -> (averaging: Averaging)
        ensures
            averaging == Averaging::Off,
    {
        Averaging::Off
    }
}

impl Averaging {
    /// Exponential averaging with a time constant of `seconds`, given the rate at
    /// which frames arrive. A time constant that is not positive means no
    /// averaging at all.
    pub fn exponential_over<C: Fn(Calc) -> F32>(
        m: &Arith<C>,
        seconds: F32,
        frames_per_second: F32,
    ) -> (averaging: Averaging)
        ensures
            averaging == if seconds.le(num(ZERO)) || frames_per_second.le(num(ZERO)) {
                Averaging::Off
            } else {
                Averaging::Exponential {
                    alpha: m.minus(
                        num(ONE),
                        m.exp(m.over(num(MINUS_ONE), m.times(seconds, frames_per_second))),
                    ).clamp(num(SMALLEST_NORMAL), num(ONE)),
                }
            },
    {
        if seconds.le(num(ZERO)) || frames_per_second.le(num(ZERO)) {
            return Averaging::Off;
        }
        let decay = m.exp(m.over(num(MINUS_ONE), m.times(seconds, frames_per_second)));
        Averaging::Exponential {
            alpha: m.minus(num(ONE), decay).clamp(num(SMALLEST_NORMAL), num(ONE)),
        }
    }
}

/// What a new frame does to the running average.
#[derive(Debug, Clone, Copy, PartialEq, Eq, Structural)]
pub enum Update {
    /// The new frame becomes the average.
    Replace,
    /// The average is complete and stays as it is.
    Hold,
    /// The average moves toward the new frame by this fraction of the difference.
    Toward { alpha: F32 },
    /// The average becomes the mean of this many earlier frames and the new one.
    Mean { earlier: u32 },
    /// The greater of the two.
    Peak,
}

/// What the next frame does when `frames` frames went before it.
pub open spec fn spec_update(averaging: Averaging, frames: u32) -> Update {
    match averaging {
        Averaging::Off => Update::Replace,
        Averaging::Exponential { alpha } => if frames == 0 {
            Update::Replace
        } else {
            Update::Toward { alpha: alpha.spec_clamp(num(ZERO), num(ONE)) }
        },
        Averaging::Infinite => Update::Mean { earlier: frames },
        Averaging::Linear { frames: limit } => if frames < limit {
            Update::Mean { earlier: frames }
        } else {
            Update::Hold
        },
        Averaging::PeakHold => if frames == 0 {
            Update::Replace
        } else {
            Update::Peak
        },
    }
}

/// What the next frame does when `frames` frames went before it.
pub fn update_for(averaging: Averaging, frames: u32) -> (update: Update)
    ensures
        update == spec_update(averaging, frames),
{
    match averaging {
        Averaging::Off => Update::Replace,
        Averaging::Exponential { alpha } => {
            if frames == 0 {
                Update::Replace
            } else {
                Update::Toward { alpha: alpha.clamp(num(ZERO), num(ONE)) }
            }
        },
        Averaging::Infinite => Update::Mean { earlier: frames },
        Averaging::Linear { frames: limit } => {
            if frames < limit {
                Update::Mean { earlier: frames }
            } else {
                Update::Hold
            }
        },
        Averaging::PeakHold => {
            if frames == 0 {
                Update::Replace
            } else {
                Update::Peak
            }
        },
    }
}

/// How to set up a [`SpectrumAnalyzer`].
#[derive(Debug, Clone, Copy, PartialEq, Eq, Structural)]
pub struct SpectrumConfig {
    /// Sample rate of the incoming audio, in hertz.
    pub sample_rate: F32,
    /// Transform size in samples. Must be even and at least two.
    pub size: usize,
    /// Analysis taper.
    pub window: WindowKind,
    /// Frame overlap.
    pub overlap: Overlap,
    /// Averaging mode.
    pub averaging: Averaging,
}

impl Default for SpectrumConfig {
    fn default() -> (config: SpectrumConfig)
        ensures
            config == (SpectrumConfig {
                sample_rate: F32 { bits: 0x473B_8000 },
                size: 4096,
                window: WindowKind::Hann,
                overlap: Overlap::ThreeQuarters,
                averaging: Averaging::Off,
            }),
    {
        // 48 kHz.
        SpectrumConfig {
            sample_rate: F32 { bits: 0x473B_8000 },
            size: 4096,
            window: WindowKind::Hann,
            overlap: Overlap::ThreeQuarters,
            averaging: Averaging::Off,
        }
    }
}

impl SpectrumConfig {
    /// Whether an analyzer can be built: a positive rate, and an even size of at
    /// least two.
    pub open spec fn valid(self) -> bool {
        num(ZERO).less(self.sample_rate) && self.size >= 2 && self.size % 2 == 0
    }

    pub fn is_valid(&self) -> (valid: bool)
        ensures
            valid == self.valid(),
    {
        num(ZERO).lt(self.sample_rate) && self.size >= 2 && self.size % 2 == 0
    }
}

/// What one bin of the average becomes.
pub open spec fn updated_bin<C: Fn(Calc) -> F32>(
    m: Arith<C>,
    update: Update,
    before: F32,
    new: F32,
) -> F32 {
    match update {
        Update::Replace => new,
        Update::Hold => before,
        Update::Peak => before.max(new),
        Update::Toward { alpha } => m.plus(before, m.times(alpha, m.minus(new, before))),
        Update::Mean { earlier } => m.plus(
            before,
            m.over(m.minus(new, before), m.plus(m.count(earlier as usize), num(ONE))),
        ),
    }
}

/// What the whole average becomes.
pub open spec fn updated<C: Fn(Calc) -> F32>(
    m: Arith<C>,
    update: Update,
    before: Seq<F32>,
    new: Seq<F32>,
) -> Seq<F32> {
    Seq::new(before.len(), |k: int| updated_bin(m, update, before[k], new[k]))
}

/// Mean-square power of one bin. The ends of a spectrum are unpaired; every bin
/// between them stands for a conjugate pair.
pub open spec fn bin_power<C: Fn(Calc) -> F32>(
    m: Arith<C>,
    bin: Complex,
    scale: F32,
    unpaired: bool,
) -> F32 {
    let magnitude = m.times(m.norm(bin), scale);
    if unpaired {
        m.times(magnitude, magnitude)
    } else {
        m.times(m.times(num(TWO), magnitude), magnitude)
    }
}

/// Mean-square power per bin of one frame.
pub open spec fn frame_power<C: Fn(Calc) -> F32, F: Fn(&[F32]) -> Vec<Complex>>(
    m: Arith<C>,
    fft: Forward<F>,
    taper: Seq<F32>,
    scale: F32,
    frame: Seq<F32>,
) -> Seq<F32> {
    let spectrum = fft.of(window::products(m, frame, taper));
    Seq::new(
        spectrum.len(),
        |k: int| bin_power(m, spectrum[k], scale, k == 0 || k == spectrum.len() - 1),
    )
}

/// How many frames an average holds when `more` came after `earlier`; the count
/// stays at the top of its type.
pub open spec fn frames_counted(earlier: u32, more: int) -> u32 {
    if earlier + more > u32::MAX {
        u32::MAX
    } else {
        (earlier + more) as u32
    }
}

/// How many frames are folded into an average once `more` came after `earlier`. A
/// linear average folds no more than it is made of: the others are held back.
pub open spec fn frames_folded(averaging: Averaging, earlier: u32, more: int) -> u32 {
    match averaging {
        Averaging::Linear { frames: limit } => if earlier >= limit {
            earlier
        } else if earlier + more > limit {
            limit
        } else {
            (earlier + more) as u32
        },
        _ => frames_counted(earlier, more),
    }
}

/// What an analyzer amounts to.
#[verifier::ext_equal]
pub struct SpectrumModel {
    /// Samples per frame.
    pub size: nat,
    /// Samples between consecutive frames.
    pub hop: nat,
    /// The window's coefficients.
    pub taper: Seq<F32>,
    /// What a bin's magnitude is scaled by.
    pub scale: F32,
    pub averaging: Averaging,
    /// The running average, per bin.
    pub power: Seq<F32>,
    /// Frames folded into the average.
    pub frames: u32,
    /// The samples waiting for a frame to complete.
    pub waiting: Seq<F32>,
}

impl SpectrumModel {
    /// One frame folded into the average.
    pub open spec fn folded<C: Fn(Calc) -> F32, F: Fn(&[F32]) -> Vec<Complex>>(
        self,
        m: Arith<C>,
        fft: Forward<F>,
        frame: Seq<F32>,
    ) -> SpectrumModel {
        SpectrumModel {
            power: updated(
                m,
                spec_update(self.averaging, self.frames),
                self.power,
                frame_power(m, fft, self.taper, self.scale, frame),
            ),
            frames: frames_folded(self.averaging, self.frames, 1),
            ..self
        }
    }

    /// Frames folded into the average, one after the other.
    pub open spec fn folded_all<C: Fn(Calc) -> F32, F: Fn(&[F32]) -> Vec<Complex>>(
        self,
        m: Arith<C>,
        fft: Forward<F>,
        frames: Seq<Seq<F32>>,
    ) -> SpectrumModel
        decreases frames.len(),
    {
        if frames.len() == 0 {
            self
        } else {
            self.folded_all(m, fft, frames.drop_last()).folded(m, fft, frames.last())
        }
    }

    /// The frames that `samples` complete.
    pub open spec fn completed(self, samples: Seq<F32>) -> Seq<Seq<F32>> {
        framing::frames_of(self.waiting + samples, self.size, self.hop)
    }

    /// What feeding `samples` makes of an analyzer: the frames of what was waiting
    /// and what came, each folded into the average in turn.
    pub open spec fn pushed<C: Fn(Calc) -> F32, F: Fn(&[F32]) -> Vec<Complex>>(
        self,
        m: Arith<C>,
        fft: Forward<F>,
        samples: Seq<F32>,
    ) -> SpectrumModel {
        SpectrumModel {
            waiting: framing::left_over(self.waiting + samples, self.size, self.hop),
            ..self.folded_all(m, fft, self.completed(samples))
        }
    }

    /// The average forgotten, and nothing else.
    pub open spec fn emptied(self) -> SpectrumModel {
        SpectrumModel {
            power: Seq::new(self.power.len(), |k: int| num(ZERO)),
            frames: 0,
            ..self
        }
    }
}

/// An analyzer as it is made.
pub open spec fn fresh<C: Fn(Calc) -> F32>(m: Arith<C>, config: SpectrumConfig) -> SpectrumModel {
    let taper = Seq::new(
        config.size as nat,
        |i: int| window::window_sample(m, config.window, config.size, i as usize),
    );
    let gain = m.over(crate::arith::total(m, taper), m.count(config.size));
    SpectrumModel {
        size: config.size as nat,
        hop: config.overlap.spec_hop(config.size as nat),
        taper,
        scale: m.over(num(ONE), m.times(m.count(config.size), gain)),
        averaging: config.averaging,
        power: Seq::new((config.size / 2 + 1) as nat, |k: int| num(ZERO)),
        frames: 0,
        waiting: Seq::empty(),
    }
}

/// Folding leaves everything but the average as it is.
pub proof fn lemma_folding_keeps_setup<C: Fn(Calc) -> F32, F: Fn(&[F32]) -> Vec<Complex>>(
    model: SpectrumModel,
    m: Arith<C>,
    fft: Forward<F>,
    frames: Seq<Seq<F32>>,
)
    ensures
        model.folded_all(m, fft, frames) == (SpectrumModel {
            power: model.folded_all(m, fft, frames).power,
            frames: frames_folded(model.averaging, model.frames, frames.len() as int),
            ..model
        }),
        model.folded_all(m, fft, frames).power.len() == model.power.len(),
    decreases frames.len(),
{
    if frames.len() > 0 {
        lemma_folding_keeps_setup(model, m, fft, frames.drop_last());
    }
}

/// Folding two runs of frames is folding the one run they make.
pub proof fn lemma_folding_in_runs<C: Fn(Calc) -> F32, F: Fn(&[F32]) -> Vec<Complex>>(
    model: SpectrumModel,
    m: Arith<C>,
    fft: Forward<F>,
    first: Seq<Seq<F32>>,
    second: Seq<Seq<F32>>,
)
    ensures
        model.folded_all(m, fft, first + second) == model.folded_all(m, fft, first).folded_all(
            m,
            fft,
            second,
        ),
    decreases second.len(),
{
    if second.len() == 0 {
        assert(first + second =~= first);
    } else {
        assert((first + second).drop_last() =~= first + second.drop_last());
        lemma_folding_in_runs(model, m, fft, first, second.drop_last());
    }
}

/// Folding does not look at the samples waiting.
proof fn lemma_folding_ignores_waiting<C: Fn(Calc) -> F32, F: Fn(&[F32]) -> Vec<Complex>>(
    model: SpectrumModel,
    waiting: Seq<F32>,
    m: Arith<C>,
    fft: Forward<F>,
    frames: Seq<Seq<F32>>,
)
    ensures
        (SpectrumModel { waiting, ..model }).folded_all(m, fft, frames) == (SpectrumModel {
            waiting,
            ..model.folded_all(m, fft, frames)
        }),
    decreases frames.len(),
{
    if frames.len() > 0 {
        lemma_folding_ignores_waiting(model, waiting, m, fft, frames.drop_last());
    }
}

/// The result is identical whether audio arrives in one block or in two.
pub proof fn lemma_push_in_chunks<C: Fn(Calc) -> F32, F: Fn(&[F32]) -> Vec<Complex>>(
    model: SpectrumModel,
    m: Arith<C>,
    fft: Forward<F>,
    first: Seq<F32>,
    second: Seq<F32>,
)
    requires
        0 < model.hop <= model.size,
    ensures
        model.pushed(m, fft, first).pushed(m, fft, second) == model.pushed(m, fft, first + second),
        model.completed(first).len() + model.pushed(m, fft, first).completed(second).len()
            == model.completed(first + second).len(),
{
    let data = model.waiting + first;
    let frames = model.completed(first);
    let middle = model.pushed(m, fft, first);
    let later = middle.completed(second);
    framing::lemma_frames_in_chunks(data, second, model.size, model.hop);
    assert(model.waiting + (first + second) =~= data + second);
    lemma_folding_keeps_setup(model, m, fft, frames);
    lemma_folding_in_runs(model, m, fft, frames, later);
    lemma_folding_ignores_waiting(
        model.folded_all(m, fft, frames),
        middle.waiting,
        m,
        fft,
        later,
    );
    assert(middle.pushed(m, fft, second) =~= model.pushed(m, fft, first + second));
}

/// A linear average holds once it has its frames: further samples leave it as it is.
pub proof fn lemma_linear_average_holds<C: Fn(Calc) -> F32, F: Fn(&[F32]) -> Vec<Complex>>(
    model: SpectrumModel,
    m: Arith<C>,
    fft: Forward<F>,
    samples: Seq<F32>,
)
    requires
        model.averaging matches Averaging::Linear { frames } && frames <= model.frames,
    ensures
        model.pushed(m, fft, samples).power == model.power,
        model.pushed(m, fft, samples).frames == model.frames,
{
    lemma_linear_hold_over(model, m, fft, model.completed(samples));
    lemma_folding_keeps_setup(model, m, fft, model.completed(samples));
}

proof fn lemma_linear_hold_over<C: Fn(Calc) -> F32, F: Fn(&[F32]) -> Vec<Complex>>(
    model: SpectrumModel,
    m: Arith<C>,
    fft: Forward<F>,
    frames: Seq<Seq<F32>>,
)
    requires
        model.averaging matches Averaging::Linear { frames } && frames <= model.frames,
    ensures
        model.folded_all(m, fft, frames).power == model.power,
    decreases frames.len(),
{
    if frames.len() > 0 {
        lemma_linear_hold_over(model, m, fft, frames.drop_last());
        lemma_folding_keeps_setup(model, m, fft, frames.drop_last());
        assert(model.folded_all(m, fft, frames).power =~= model.power);
    }
}

/// A peak hold never falls: every bin is at least what it was, once it is a number.
pub proof fn lemma_peak_hold_never_falls<C: Fn(Calc) -> F32, F: Fn(&[F32]) -> Vec<Complex>>(
    model: SpectrumModel,
    m: Arith<C>,
    fft: Forward<F>,
    samples: Seq<F32>,
    k: int,
)
    requires
        model.averaging == Averaging::PeakHold,
        model.frames > 0,
        0 <= k < model.power.len(),
        !model.power[k].nan(),
    ensures
        model.power[k].at_most(model.pushed(m, fft, samples).power[k]),
{
    lemma_peak_over(model, m, fft, model.completed(samples), k);
}

proof fn lemma_peak_over<C: Fn(Calc) -> F32, F: Fn(&[F32]) -> Vec<Complex>>(
    model: SpectrumModel,
    m: Arith<C>,
    fft: Forward<F>,
    frames: Seq<Seq<F32>>,
    k: int,
)
    requires
        model.averaging == Averaging::PeakHold,
        model.frames > 0,
        0 <= k < model.power.len(),
        !model.power[k].nan(),
    ensures
        model.power[k].at_most(model.folded_all(m, fft, frames).power[k]),
    decreases frames.len(),
{
    if frames.len() > 0 {
        lemma_peak_over(model, m, fft, frames.drop_last(), k);
        lemma_folding_keeps_setup(model, m, fft, frames.drop_last());
    }
}

/// Welch-style overlapped spectrum estimator.
///
/// Feed it samples with [`SpectrumAnalyzer::push`]; it emits a frame every hop
/// and folds each into the running average.
#[derive(Debug)]
pub struct SpectrumAnalyzer {
    sample_rate: F32,
    frame: SlidingFrame<F32>,
    window: Window,
    /// `1 / (size * coherent_gain)`, precomputed.
    amplitude_scale: F32,
    averaging: Averaging,
    /// The running average exposed to callers.
    power: Vec<F32>,
    frames: u32,
}

impl View for SpectrumAnalyzer {
    type V = SpectrumModel;

    closed spec fn view(&self) -> SpectrumModel {
        SpectrumModel {
            size: self.frame.spec_size(),
            hop: self.frame.spec_hop(),
            taper: self.window.spec_samples(),
            scale: self.amplitude_scale,
            averaging: self.averaging,
            power: self.power@,
            frames: self.frames,
            waiting: self.frame.waiting(),
        }
    }
}

impl SpectrumAnalyzer {
    pub closed spec fn frame_fits(self) -> bool {
        self.frame.wf()
    }

    pub closed spec fn spec_sample_rate(self) -> F32 {
        self.sample_rate
    }

    pub closed spec fn spec_window(self) -> Window {
        self.window
    }

    pub open spec fn wf(self) -> bool {
        &&& self.frame_fits()
        &&& 2 <= self@.size <= usize::MAX
        &&& 0 < self@.hop <= self@.size
        &&& self@.waiting.len() < self@.size
        &&& self@.taper.len() == self@.size
        &&& self@.power.len() == self@.size / 2 + 1
    }

    /// Build an analyzer.
    pub fn new<C: Fn(Calc) -> F32>(m: &Arith<C>, config: SpectrumConfig) -> (analyzer:
        SpectrumAnalyzer)
        requires
            config.valid(),
        ensures
            analyzer.wf(),
            analyzer.spec_sample_rate() == config.sample_rate,
            analyzer.spec_window().made(*m, config.window, config.size),
            analyzer@ == fresh(*m, config),
    {
        let hop: usize = config.overlap.hop(config.size);
        let bins: usize = config.size / 2 + 1;
        let window = Window::new(m, config.window, config.size);
        let amplitude_scale = m.over(
            num(ONE),
            m.times(m.count(config.size), window.coherent_gain()),
        );
        let zero = num(ZERO);
        let analyzer = SpectrumAnalyzer {
            sample_rate: config.sample_rate,
            frame: SlidingFrame::new(config.size, hop, zero),
            window,
            amplitude_scale,
            averaging: config.averaging,
            power: vec![zero; bins],
            frames: 0,
        };
        assert(analyzer@.power =~= Seq::new(bins as nat, |k: int| num(ZERO)));
        analyzer
    }

    /// Feed samples in, returning how many frames completed.
    ///
    /// Accepts any length; partial frames are retained until the next call.
    pub fn push<C: Fn(Calc) -> F32, F: Fn(&[F32]) -> Vec<Complex>>(
        &mut self,
        m: &Arith<C>,
        fft: &Forward<F>,
        samples: &[F32],
    ) -> (produced: usize)
        requires
            old(self).wf(),
        ensures
            final(self).wf(),
            final(self).spec_sample_rate() == old(self).spec_sample_rate(),
            final(self).spec_window() == old(self).spec_window(),
            final(self)@ == old(self)@.pushed(*m, *fft, samples@),
            produced == old(self)@.completed(samples@).len(),
    {
        let ghost start = self@;
        let ghost all = start.completed(samples@);
        let mut produced: usize = 0;
        let mut offset: usize = 0;
        proof {
            assert(samples@.skip(0) =~= samples@);
            assert(all.skip(0) =~= all);
            assert(all.take(0) =~= Seq::<Seq<F32>>::empty());
        }
        while offset < samples.len()
            invariant
                self.wf(),
                self.sample_rate == old(self).sample_rate,
                self.window == old(self).window,
                start == old(self)@,
                0 < start.hop <= start.size,
                all == start.completed(samples@),
                offset <= samples@.len(),
                produced <= offset,
                produced <= all.len(),
                framing::frames_of(
                    self@.waiting + samples@.skip(offset as int),
                    start.size,
                    start.hop,
                ) == all.skip(produced as int),
                framing::left_over(
                    self@.waiting + samples@.skip(offset as int),
                    start.size,
                    start.hop,
                ) == framing::left_over(start.waiting + samples@, start.size, start.hop),
                self@ == (SpectrumModel {
                    waiting: self@.waiting,
                    ..start.folded_all(*m, *fft, all.take(produced as int))
                }),
            decreases samples@.len() - offset,
        {
            let ghost here = self@.waiting + samples@.skip(offset as int);
            let ghost before = self@;
            proof {
                lemma_folding_keeps_setup(start, *m, *fft, all.take(produced as int));
            }
            let taken: usize = self.frame.fill(samples, offset);
            offset = offset + taken;
            assert(self@.waiting + samples@.skip(offset as int) =~= here);

            if self.frame.is_complete() {
                let ghost frame = self@.waiting;
                proof {
                    framing::lemma_next_frame(
                        here,
                        frame,
                        samples@.skip(offset as int),
                        all,
                        produced as int,
                        start.size,
                        start.hop,
                    );
                    assert(all.take(produced + 1).drop_last() =~= all.take(produced as int));
                    assert(all.take(produced + 1).last() == frame);
                }
                self.process_frame(m, fft);
                produced = produced + 1;
                self.frame.slide();
            }
        }
        proof {
            assert(samples@.skip(offset as int) =~= Seq::<F32>::empty());
            assert(self@.waiting + samples@.skip(offset as int) =~= self@.waiting);
            assert(all.skip(produced as int).len() == 0);
            assert(all.take(produced as int) =~= all);
        }
        produced
    }

    /// Transform the complete frame and fold it into the average.
    fn process_frame<C: Fn(Calc) -> F32, F: Fn(&[F32]) -> Vec<Complex>>(
        &mut self,
        m: &Arith<C>,
        fft: &Forward<F>,
    )
        requires
            old(self).frame_fits(),
            old(self)@.waiting.len() == old(self)@.size,
            old(self)@.taper.len() == old(self)@.size,
            old(self)@.power.len() == old(self)@.size / 2 + 1,
        ensures
            final(self).frame == old(self).frame,
            final(self).window == old(self).window,
            final(self).sample_rate == old(self).sample_rate,
            final(self)@ == old(self)@.folded(*m, *fft, old(self)@.waiting),
    {
        let mut windowed: Vec<F32> = vec![num(ZERO); self.window.size()];
        self.window.apply_to(m, self.frame.samples(), windowed.as_mut_slice());
        let spectrum = fft.transform(windowed.as_slice());
        let bins: usize = spectrum.len();
        let mut power: Vec<F32> = Vec::new();
        let mut k: usize = 0;
        while k < bins
            invariant
                k <= bins,
                bins == spectrum@.len(),
                bins >= 1,
                power@.len() == k,
                forall|i: int|
                    0 <= i < k ==> #[trigger] power@[i] == bin_power(
                        *m,
                        spectrum@[i],
                        self.amplitude_scale,
                        i == 0 || i == bins - 1,
                    ),
            decreases bins - k,
        {
            let magnitude = m.times(m.norm(spectrum[k]), self.amplitude_scale);
            let squared = if k == 0 || k == bins - 1 {
                m.times(magnitude, magnitude)
            } else {
                m.times(m.times(num(TWO), magnitude), magnitude)
            };
            power.push(squared);
            k = k + 1;
        }
        assert(power@ =~= frame_power(
            *m,
            *fft,
            self@.taper,
            self@.scale,
            self@.waiting,
        ));
        let held: bool = match update_for(self.averaging, self.frames) {
            Update::Hold => true,
            _ => false,
        };
        self.accumulate(m, power.as_slice());
        if !held {
            self.frames = self.frames.saturating_add(1);
        }
    }

    /// Fold the frame just transformed into the average.
    fn accumulate<C: Fn(Calc) -> F32>(&mut self, m: &Arith<C>, new: &[F32])
        requires
            new@.len() == old(self).power@.len(),
        ensures
            final(self).frame == old(self).frame,
            final(self).window == old(self).window,
            final(self).sample_rate == old(self).sample_rate,
            final(self).amplitude_scale == old(self).amplitude_scale,
            final(self).averaging == old(self).averaging,
            final(self).frames == old(self).frames,
            final(self).power@ == updated(
                *m,
                spec_update(old(self).averaging, old(self).frames),
                old(self).power@,
                new@,
            ),
    {
        let update = update_for(self.averaging, self.frames);
        let bins: usize = self.power.len();
        let mut k: usize = 0;
        while k < bins
            invariant
                k <= bins,
                bins == self.power@.len(),
                bins == old(self).power@.len(),
                bins == new@.len(),
                self.frame == old(self).frame,
                self.window == old(self).window,
                self.sample_rate == old(self).sample_rate,
                self.amplitude_scale == old(self).amplitude_scale,
                self.averaging == old(self).averaging,
                self.frames == old(self).frames,
                forall|i: int|
                    0 <= i < k ==> #[trigger] self.power@[i] == updated_bin(
                        *m,
                        update,
                        old(self).power@[i],
                        new@[i],
                    ),
                forall|i: int| k <= i < bins ==> self.power@[i] == old(self).power@[i],
            decreases bins - k,
        {
            let before = self.power[k];
            let after = match update {
                Update::Replace => new[k],
                Update::Hold => before,
                Update::Peak => before.max(new[k]),
                Update::Toward { alpha } => m.plus(
                    before,
                    m.times(alpha, m.minus(new[k], before)),
                ),
                // Incremental mean, which stays stable as the count grows.
                Update::Mean { earlier } => m.plus(
                    before,
                    m.over(
                        m.minus(new[k], before),
                        m.plus(m.count(earlier as usize), num(ONE)),
                    ),
                ),
            };
            self.power.set(k, after);
            k = k + 1;
        }
        assert(self.power@ =~= updated(*m, update, old(self).power@, new@));
    }

    /// Mean-square power per bin.
    pub fn power(&self) -> (power: &[F32])
        ensures
            power@ == self@.power,
    {
        self.power.as_slice()
    }

    /// Write the spectrum as dBFS, where 0 dBFS is a full-scale sine.
    pub fn write_db_fs<C: Fn(Calc) -> F32>(&self, m: &Arith<C>, out: &mut [F32])
        requires
            old(out)@.len() == self@.power.len(),
        ensures
            final(out)@ == levels(*m, self@.power),
    {
        let bins: usize = self.power.len();
        let mut k: usize = 0;
        while k < bins
            invariant
                k <= bins,
                bins == self.power@.len(),
                bins == out@.len(),
                forall|i: int| 0 <= i < k ==> #[trigger] out@[i] == level(m, self.power@[i]),
            decreases bins - k,
        {
            out[k] = level(m, self.power[k]);
            k = k + 1;
        }
        assert(out@ =~= levels(*m, self.power@));
    }

    /// Discard the running average and the partial frame.
    pub fn reset(&mut self)
        requires
            old(self).wf(),
        ensures
            final(self).wf(),
            final(self).spec_sample_rate() == old(self).spec_sample_rate(),
            final(self).spec_window() == old(self).spec_window(),
            final(self)@ == (SpectrumModel { waiting: Seq::empty(), ..old(self)@.emptied() }),
    {
        self.empty();
        self.frame.clear();
    }

    /// Forget the average, and nothing else.
    fn empty(&mut self)
        ensures
            final(self).frame == old(self).frame,
            final(self).window == old(self).window,
            final(self).sample_rate == old(self).sample_rate,
            final(self)@ == old(self)@.emptied(),
    {
        let bins: usize = self.power.len();
        let mut k: usize = 0;
        while k < bins
            invariant
                k <= bins,
                bins == self.power@.len(),
                bins == old(self).power@.len(),
                self.frame == old(self).frame,
                self.window == old(self).window,
                self.sample_rate == old(self).sample_rate,
                self.amplitude_scale == old(self).amplitude_scale,
                self.averaging == old(self).averaging,
                forall|i: int| 0 <= i < k ==> #[trigger] self.power@[i] == num(ZERO),
            decreases bins - k,
        {
            self.power.set(k, num(ZERO));
            k = k + 1;
        }
        self.frames = 0;
        assert(self@.power =~= old(self)@.emptied().power);
    }

    /// Change averaging mode. Resets the average, since mixing modes within one
    /// accumulation would produce a number that means nothing.
    pub fn set_averaging(&mut self, averaging: Averaging)
        requires
            old(self).wf(),
        ensures
            final(self).wf(),
            final(self).spec_sample_rate() == old(self).spec_sample_rate(),
            final(self).spec_window() == old(self).spec_window(),
            final(self)@ == (SpectrumModel { averaging, ..old(self)@.emptied() }),
    {
        self.averaging = averaging;
        self.empty();
    }

    /// Frames folded into the current average.
    pub fn frames(&self) -> (frames: u32)
        ensures
            frames == self@.frames,
    {
        self.frames
    }

    /// Number of bins, `size / 2 + 1`.
    pub fn bins(&self) -> (bins: usize)
        ensures
            bins == self@.power.len(),
    {
        self.power.len()
    }

    /// Transform size in samples.
    pub fn size(&self) -> (size: usize)
        ensures
            size == self@.size,
    {
        self.frame.size()
    }

    /// Samples between consecutive frames.
    pub fn hop(&self) -> (hop: usize)
        ensures
            hop == self@.hop,
    {
        self.frame.hop()
    }

    /// Frames produced per second of audio at the configured rate.
    pub fn frame_rate<C: Fn(Calc) -> F32>(&self, m: &Arith<C>) -> (rate: F32)
        ensures
            rate == m.over(self.spec_sample_rate(), m.count(self@.hop as usize)),
    {
        m.over(self.sample_rate, m.count(self.hop()))
    }

    /// Width of one bin in hertz.
    pub fn bin_spacing_hz<C: Fn(Calc) -> F32>(&self, m: &Arith<C>) -> (spacing: F32)
        ensures
            spacing == m.over(self.spec_sample_rate(), m.count(self@.size as usize)),
    {
        m.over(self.sample_rate, m.count(self.size()))
    }

    /// Centre frequency of bin `k`.
    pub fn bin_frequency<C: Fn(Calc) -> F32>(&self, m: &Arith<C>, k: usize) -> (hz: F32)
        ensures
            hz == m.times(
                m.count(k),
                m.over(self.spec_sample_rate(), m.count(self@.size as usize)),
            ),
    {
        m.times(m.count(k), self.bin_spacing_hz(m))
    }

    /// Effective noise bandwidth of each bin in hertz.
    pub fn enbw_hz<C: Fn(Calc) -> F32>(&self, m: &Arith<C>) -> (hz: F32)
        ensures
            hz == m.times(
                self.spec_window().spec_enbw_bins(),
                m.over(self.spec_sample_rate(), m.count(self@.size as usize)),
            ),
    {
        m.times(self.window.enbw_bins(), self.bin_spacing_hz(m))
    }

    /// The window in use.
    pub fn window(&self) -> (window: &Window)
        ensures
            *window == self.spec_window(),
    {
        &self.window
    }
}

/// The level of a power: a full-scale sine has mean square one half, so twice the
/// power puts it at 0 dBFS. Never below the floor.
#[verifier::allow_in_spec]
pub fn level<C: Fn(Calc) -> F32>(m: &Arith<C>, power: F32) -> F32
    returns
        (if num(ZERO).lt(power) {
            m.times(num(TEN), m.log10(m.times(num(TWO), power))).max(num(DB_FLOOR))
        } else {
            num(DB_FLOOR)
        }),
{
    if num(ZERO).lt(power) {
        m.times(num(TEN), m.log10(m.times(num(TWO), power))).max(num(DB_FLOOR))
    } else {
        num(DB_FLOOR)
    }
}

/// The levels of powers.
pub open spec fn levels<C: Fn(Calc) -> F32>(m: Arith<C>, power: Seq<F32>) -> Seq<F32> {
    Seq::new(power.len(), |k: int| level(&m, power[k]))
}

/// The power of a tone of which half the amplitude stands in a paired bin.
pub open spec fn tone_power<C: Fn(Calc) -> F32>(m: Arith<C>, half: F32) -> F32 {
    m.times(m.times(num(TWO), half), half)
}

/// Whether a tapered tone stands in a bin at half its amplitude times the sum of the
/// taper, and the scale of an analyzer undoes that sum.
pub open spec fn shows_tone<C: Fn(Calc) -> F32, F: Fn(&[F32]) -> Vec<Complex>>(
    m: Arith<C>,
    fft: Forward<F>,
    config: SpectrumConfig,
    tone: Seq<F32>,
    bin: int,
    half: F32,
) -> bool {
    let made = fresh(m, config);
    let spectrum = fft.of(window::products(m, tone, made.taper));
    let sum = crate::arith::total(m, made.taper);
    &&& spectrum.len() == config.size / 2 + 1
    &&& m.norm(spectrum[bin]) == m.times(half, sum)
    &&& m.times(m.times(half, sum), made.scale) == half
}

/// A tone in the middle of a bin reads the same level in every window: that of its
/// amplitude alone, wherever the transform shows a tapered tone by the sum of the taper.
pub proof fn lemma_level_is_independent_of_window<
    C: Fn(Calc) -> F32,
    F: Fn(&[F32]) -> Vec<Complex>,
>(
    m: Arith<C>,
    fft: Forward<F>,
    config: SpectrumConfig,
    tone: Seq<F32>,
    bin: int,
    half: F32,
)
    requires
        config.valid(),
        config.averaging is Off,
        0 < bin < config.size / 2,
        shows_tone(m, fft, config, tone, bin, half),
    ensures
        levels(m, fresh(m, config).folded(m, fft, tone).power)[bin] == level(
            &m,
            tone_power(m, half),
        ),
{
    let made = fresh(m, config);
    let powers = frame_power(m, fft, made.taper, made.scale, tone);
    assert(powers[bin] == tone_power(m, half));
    assert(made.folded(m, fft, tone).power[bin] == powers[bin]);
}

/// No level lies below the floor.
pub proof fn lemma_levels_above_floor<C: Fn(Calc) -> F32>(m: Arith<C>, power: Seq<F32>, bin: int)
    requires
        0 <= bin < power.len(),
    ensures
        num(DB_FLOOR).at_most(levels(m, power)[bin]),
{
}

/// How far frames advance: by a frame, or by a half, a quarter or an eighth of one.
pub proof fn lemma_hop_is_a_share(overlap: Overlap, size: nat)
    requires
        size >= 8,
    ensures
        overlap is Off ==> overlap.spec_hop(size) == size,
        overlap is Half ==> 2 * overlap.spec_hop(size) <= size < 2 * overlap.spec_hop(size) + 2,
        overlap is ThreeQuarters ==> 4 * overlap.spec_hop(size) <= size < 4 * overlap.spec_hop(
            size,
        ) + 4,
        overlap is SevenEighths ==> 8 * overlap.spec_hop(size) <= size < 8 * overlap.spec_hop(size)
            + 8,
{
}

/// The power that a frame has in a bin: the square of its tapered spectrum's magnitude
/// there, scaled, and twice that in every bin but the two ends.
pub proof fn lemma_power_of_a_bin<C: Fn(Calc) -> F32, F: Fn(&[F32]) -> Vec<Complex>>(
    model: SpectrumModel,
    m: Arith<C>,
    fft: Forward<F>,
    frame: Seq<F32>,
    tapered: Seq<F32>,
    k: int,
)
    requires
        tapered.len() == frame.len(),
        forall|i: int|
            0 <= i < frame.len() ==> #[trigger] tapered[i] == m.times(frame[i], model.taper[i]),
        0 <= k < fft.of(tapered).len(),
    ensures
        ({
            let spectrum = fft.of(tapered);
            let powers = frame_power(m, fft, model.taper, model.scale, frame);
            let size = m.times(m.norm(spectrum[k]), model.scale);
            &&& powers.len() == spectrum.len()
            &&& k == 0 || k == spectrum.len() - 1 ==> powers[k] == m.times(size, size)
            &&& 0 < k < spectrum.len() - 1 ==> powers[k] == m.times(m.times(num(TWO), size), size)
        }),
{
    assert(window::products(m, frame, model.taper) =~= tapered);
}

/// What a frame does to the average of a bin. Without averaging, and as the first frame
/// of an exponential average or a peak hold, it takes its place; it moves an exponential
/// average by a share of the difference, and a mean by one share among all frames; a
/// peak becomes the greater; a full linear average holds.
pub proof fn lemma_how_a_frame_is_averaged<C: Fn(Calc) -> F32, F: Fn(&[F32]) -> Vec<Complex>>(
    model: SpectrumModel,
    m: Arith<C>,
    fft: Forward<F>,
    frame: Seq<F32>,
    k: int,
)
    requires
        0 <= k < model.power.len(),
    ensures
        ({
            let before = model.power[k];
            let new = frame_power(m, fft, model.taper, model.scale, frame)[k];
            let after = model.folded(m, fft, frame);
            let mean = m.plus(
                before,
                m.over(m.minus(new, before), m.plus(m.count(model.frames as usize), num(ONE))),
            );
            &&& after.power.len() == model.power.len()
            &&& match model.averaging {
                Averaging::Off => after.power[k] == new,
                Averaging::Exponential { alpha } => after.power[k] == if model.frames == 0 {
                    new
                } else {
                    m.plus(
                        before,
                        m.times(alpha.spec_clamp(num(ZERO), num(ONE)), m.minus(new, before)),
                    )
                },
                Averaging::Infinite => after.power[k] == mean,
                Averaging::Linear { frames } => after.power[k] == if model.frames < frames {
                    mean
                } else {
                    before
                },
                Averaging::PeakHold => after.power[k] == if model.frames == 0 || before.nan()
                    || before.less(new) {
                    new
                } else {
                    before
                },
            }
            &&& after.frames == if model.frames == u32::MAX || (
            model.averaging matches Averaging::Linear { frames } && frames <= model.frames) {
                model.frames
            } else {
                (model.frames + 1) as u32
            }
            &&& after.waiting == model.waiting
            &&& after.taper == model.taper
            &&& after.scale == model.scale
        }),
{
}

/// An analyzer is made to scale by the sum of its taper, so that a tone reads its own
/// amplitude; and the level of a power is ten times the logarithm of twice it.
pub proof fn lemma_scale_and_level<C: Fn(Calc) -> F32>(
    m: Arith<C>,
    config: SpectrumConfig,
    power: F32,
)
    ensures
        ({
            let made = fresh(m, config);
            let n = m.count(config.size);
            &&& made.scale == m.over(
                num(ONE),
                m.times(n, m.over(crate::arith::total(m, made.taper), n)),
            )
            &&& made.taper.len() == config.size
            &&& forall|i: int|
                0 <= i < config.size ==> #[trigger] made.taper[i] == window::window_sample(
                    m,
                    config.window,
                    config.size,
                    i as usize,
                )
            &&& made.power.len() == config.size / 2 + 1
            &&& num(ZERO).less(power) ==> level(&m, power) == m.times(
                num(TEN),
                m.log10(m.times(num(TWO), power)),
            ).spec_max(num(DB_FLOOR))
        }),
{
}

/// An analyzer that is reset is as it was made, whatever it was fed.
pub proof fn lemma_reset_is_a_new_start<C: Fn(Calc) -> F32, F: Fn(&[F32]) -> Vec<Complex>>(
    m: Arith<C>,
    fft: Forward<F>,
    config: SpectrumConfig,
    samples: Seq<F32>,
)
    ensures
        (SpectrumModel {
            waiting: Seq::empty(),
            ..fresh(m, config).pushed(m, fft, samples).emptied()
        }) == fresh(m, config),
{
    let made = fresh(m, config);
    lemma_folding_keeps_setup(made, m, fft, made.completed(samples));
    assert((SpectrumModel {
        waiting: Seq::empty(),
        ..made.pushed(m, fft, samples).emptied()
    }) =~= made);
}

} // verus!

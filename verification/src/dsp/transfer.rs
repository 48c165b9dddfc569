//! Dual-channel transfer function measurement.
//!
//! A reference of what was sent and a measurement of what was heard, divided bin
//! by bin, show what the system did. The averaging happens on the spectra, never
//! on the ratio: averaging the ratio converges to something else and leaves
//! coherence meaningless.
//!
//! Coherence needs more than one frame: with a single one it is exactly 1 no
//! matter how noisy the measurement.

use vstd::prelude::*;

use crate::arith::{Arith, Calc, Complex};
use crate::dsp::fft::Forward;
use crate::dsp::framing;
use crate::dsp::framing::SlidingFrame;
use crate::dsp::spectrum;
use crate::dsp::spectrum::Overlap;
use crate::dsp::window;
use crate::dsp::window::{Window, WindowKind};
use crate::ieee::F32;
use crate::numbers::{num, ONE, TWENTY, ZERO};

verus! {

/// Floor for magnitude output where the reference carries no energy, minus two
/// hundred decibels.
pub const MAGNITUDE_FLOOR_DB: u32 = 0xC348_0000;

/// How successive frames combine.
#[derive(Debug, Clone, Copy, PartialEq, Eq, Structural)]
pub enum TransferAveraging {
    /// Average everything since the last reset.
    Infinite,
    /// Exponential moving average, for a live display that must track changes.
    Exponential {
        /// Smoothing coefficient. Smaller is smoother and slower.
        alpha: F32,
    },
}

impl Default for TransferAveraging {
    fn default() -> (averaging: TransferAveraging)
        ensures
            averaging == TransferAveraging::Infinite,
    {
        TransferAveraging::Infinite
    }
}

/// Setup for a [`TransferFunction`].
#[derive(Debug, Clone, Copy, PartialEq, Eq, Structural)]
pub struct TransferConfig {
    /// Sample rate in hertz.
    pub sample_rate: F32,
    /// Transform size. Must be even and at least two.
    pub size: usize,
    /// Analysis window.
    pub window: WindowKind,
    /// Frame overlap.
    pub overlap: Overlap,
    /// Averaging mode.
    pub averaging: TransferAveraging,
}

impl Default for TransferConfig {
    fn default() -> (config: TransferConfig)
        ensures
            config == (TransferConfig {
                sample_rate: F32 { bits: 0x473B_8000 },
                size: 4096,
                window: WindowKind::Hann,
                overlap: Overlap::ThreeQuarters,
                averaging: TransferAveraging::Infinite,
            }),
    {
        // 48 kHz.
        TransferConfig {
            sample_rate: F32 { bits: 0x473B_8000 },
            size: 4096,
            window: WindowKind::Hann,
            overlap: Overlap::ThreeQuarters,
            averaging: TransferAveraging::Infinite,
        }
    }
}

impl TransferConfig {
    /// Whether an estimator can be built: a positive rate, and an even size of at
    /// least two.
    pub open spec fn valid(self) -> bool {
        num(ZERO).less(self.sample_rate) && self.size >= 2 && self.size % 2 == 0
    }

    pub fn is_valid(&self) -> (valid: bool)
        ensures
            valid == self.valid(),
    {
        num(ZERO).lt(self.sample_rate) && self.size >= 2 && self.size % 2 == 0
    }
}

/// How much the next frame counts when `frames` frames went before it: one share
/// among all of them, or a fixed fraction after the first.
#[verifier::allow_in_spec]
pub fn weight<C: Fn(Calc) -> F32>(m: &Arith<C>, averaging: TransferAveraging, frames: u32) -> F32
    returns
        (match averaging {
            TransferAveraging::Infinite => m.over(
                num(ONE),
                m.plus(m.count(frames as usize), num(ONE)),
            ),
            TransferAveraging::Exponential { alpha } => if frames == 0 {
                num(ONE)
            } else {
                alpha.clamp(num(ZERO), num(ONE))
            },
        }),
{
    match averaging {
        TransferAveraging::Infinite => m.over(
            num(ONE),
            m.plus(m.count(frames as usize), num(ONE)),
        ),
        TransferAveraging::Exponential { alpha } => {
            if frames == 0 {
                num(ONE)
            } else {
                alpha.clamp(num(ZERO), num(ONE))
            }
        },
    }
}

/// The averaged products of one bin.
#[derive(Debug, Clone, Copy, PartialEq, Eq, Structural)]
pub struct Products {
    /// Reference auto-power.
    pub xx: F32,
    /// Measurement auto-power.
    pub yy: F32,
    /// Measurement times the conjugate of the reference.
    pub xy: Complex,
}

/// Nothing averaged yet.
#[verifier::allow_in_spec]
pub fn no_products() -> Products
    returns
        (Products { xx: num(ZERO), yy: num(ZERO), xy: Complex { re: num(ZERO), im: num(ZERO) } }),
{
    Products { xx: num(ZERO), yy: num(ZERO), xy: Complex { re: num(ZERO), im: num(ZERO) } }
}

/// The products of one bin, moved by one pair of spectra.
///
/// The conjugate goes on the reference, so that a measurement delayed relative to
/// it produces negative phase, which is the sign every analyser displays.
#[verifier::allow_in_spec]
pub fn moved<C: Fn(Calc) -> F32>(
    m: &Arith<C>,
    before: Products,
    x: Complex,
    y: Complex,
    share: F32,
) -> Products
    returns
        (Products {
            xx: m.plus(before.xx, m.times(m.minus(m.norm_sqr(x), before.xx), share)),
            yy: m.plus(before.yy, m.times(m.minus(m.norm_sqr(y), before.yy), share)),
            xy: m.sum(
                before.xy,
                m.scaled(m.difference(m.product(y, x.conj()), before.xy), share),
            ),
        }),
{
    Products {
        xx: m.plus(before.xx, m.times(m.minus(m.norm_sqr(x), before.xx), share)),
        yy: m.plus(before.yy, m.times(m.minus(m.norm_sqr(y), before.yy), share)),
        xy: m.sum(before.xy, m.scaled(m.difference(m.product(y, x.conj()), before.xy), share)),
    }
}

/// The magnitude level of a bin. No reference energy means nothing can be said
/// about the system there, and a zero would read as flat.
#[verifier::allow_in_spec]
pub fn magnitude_db<C: Fn(Calc) -> F32>(m: &Arith<C>, bin: Products) -> F32
    returns
        (if num(ZERO).lt(bin.xx) && num(ZERO).lt(m.over(m.norm(bin.xy), bin.xx)) {
            m.times(num(TWENTY), m.log10(m.over(m.norm(bin.xy), bin.xx)))
        } else {
            num(MAGNITUDE_FLOOR_DB)
        }),
{
    if num(ZERO).lt(bin.xx) {
        let magnitude = m.over(m.norm(bin.xy), bin.xx);
        if num(ZERO).lt(magnitude) {
            m.times(num(TWENTY), m.log10(magnitude))
        } else {
            num(MAGNITUDE_FLOOR_DB)
        }
    } else {
        num(MAGNITUDE_FLOOR_DB)
    }
}

/// The complex response of a bin, zero where the reference carries no energy.
#[verifier::allow_in_spec]
pub fn response<C: Fn(Calc) -> F32>(m: &Arith<C>, bin: Products) -> Complex
    returns
        (if num(ZERO).lt(bin.xx) {
            m.shared(bin.xy, bin.xx)
        } else {
            Complex { re: num(ZERO), im: num(ZERO) }
        }),
{
    if num(ZERO).lt(bin.xx) {
        m.shared(bin.xy, bin.xx)
    } else {
        Complex { re: num(ZERO), im: num(ZERO) }
    }
}

/// The phase of a bin in degrees.
#[verifier::allow_in_spec]
pub fn phase_degrees<C: Fn(Calc) -> F32>(m: &Arith<C>, bin: Products) -> F32
    returns
        m.degrees(m.arg(bin.xy)),
{
    m.degrees(m.arg(bin.xy))
}

/// The coherence of a bin: the fraction of the measurement linearly explained by
/// the reference. Kept between zero and one, since rounding can push a perfectly
/// coherent bin a hair above, and zero where either channel carries no energy.
#[verifier::allow_in_spec]
pub fn coherence<C: Fn(Calc) -> F32>(m: &Arith<C>, bin: Products) -> F32
    returns
        (if num(ZERO).lt(m.times(bin.xx, bin.yy)) {
            m.over(m.norm_sqr(bin.xy), m.times(bin.xx, bin.yy)).clamp(num(ZERO), num(ONE))
        } else {
            num(ZERO)
        }),
{
    let denominator = m.times(bin.xx, bin.yy);
    if num(ZERO).lt(denominator) {
        m.over(m.norm_sqr(bin.xy), denominator).clamp(num(ZERO), num(ONE))
    } else {
        num(ZERO)
    }
}

/// Coherence lies between zero and one wherever it is a number at all.
pub proof fn lemma_coherence_is_a_fraction<C: Fn(Calc) -> F32>(m: &Arith<C>, bin: Products)
    requires
        !coherence(m, bin).nan(),
    ensures
        num(ZERO).at_most(coherence(m, bin)),
        coherence(m, bin).at_most(num(ONE)),
{
}

/// What an estimator amounts to.
#[verifier::ext_equal]
pub struct TransferModel {
    /// Samples per frame.
    pub size: nat,
    /// Samples between consecutive frames.
    pub hop: nat,
    /// The window's coefficients.
    pub taper: Seq<F32>,
    pub averaging: TransferAveraging,
    /// The averaged products, per bin.
    pub products: Seq<Products>,
    /// Pairs of frames folded into the average.
    pub frames: u32,
    /// The reference samples waiting for a frame to complete.
    pub reference: Seq<F32>,
    /// The measurement samples waiting for a frame to complete.
    pub measurement: Seq<F32>,
}

impl TransferModel {
    /// One pair of frames folded into the average. The averaging happens on the
    /// spectra.
    pub open spec fn folded<C: Fn(Calc) -> F32, F: Fn(&[F32]) -> Vec<Complex>>(
        self,
        m: Arith<C>,
        fft: Forward<F>,
        reference: Seq<F32>,
        measurement: Seq<F32>,
    ) -> TransferModel {
        let x = fft.of(window::products(m, reference, self.taper));
        let y = fft.of(window::products(m, measurement, self.taper));
        let share = weight(&m, self.averaging, self.frames);
        TransferModel {
            products: Seq::new(
                self.products.len(),
                |k: int| moved(&m, self.products[k], x[k], y[k], share),
            ),
            frames: spectrum::frames_counted(self.frames, 1),
            ..self
        }
    }

    /// Pairs of frames folded into the average, one after the other.
    pub open spec fn folded_all<C: Fn(Calc) -> F32, F: Fn(&[F32]) -> Vec<Complex>>(
        self,
        m: Arith<C>,
        fft: Forward<F>,
        reference: Seq<Seq<F32>>,
        measurement: Seq<Seq<F32>>,
    ) -> TransferModel
        decreases reference.len(),
    {
        if reference.len() == 0 {
            self
        } else {
            self.folded_all(m, fft, reference.drop_last(), measurement.drop_last()).folded(
                m,
                fft,
                reference.last(),
                measurement.last(),
            )
        }
    }

    /// The reference frames that `samples` complete.
    pub open spec fn reference_frames(self, samples: Seq<F32>) -> Seq<Seq<F32>> {
        framing::frames_of(self.reference + samples, self.size, self.hop)
    }

    /// The measurement frames that `samples` complete.
    pub open spec fn measurement_frames(self, samples: Seq<F32>) -> Seq<Seq<F32>> {
        framing::frames_of(self.measurement + samples, self.size, self.hop)
    }

    /// What feeding matched samples makes of an estimator: both channels are framed
    /// alike, and each pair of frames is folded in in turn.
    pub open spec fn pushed<C: Fn(Calc) -> F32, F: Fn(&[F32]) -> Vec<Complex>>(
        self,
        m: Arith<C>,
        fft: Forward<F>,
        reference: Seq<F32>,
        measurement: Seq<F32>,
    ) -> TransferModel {
        TransferModel {
            reference: framing::left_over(self.reference + reference, self.size, self.hop),
            measurement: framing::left_over(self.measurement + measurement, self.size, self.hop),
            ..self.folded_all(
                m,
                fft,
                self.reference_frames(reference),
                self.measurement_frames(measurement),
            )
        }
    }

    /// Everything forgotten but the setup.
    pub open spec fn emptied(self) -> TransferModel {
        TransferModel {
            products: Seq::new(self.products.len(), |k: int| no_products()),
            frames: 0,
            reference: Seq::empty(),
            measurement: Seq::empty(),
            ..self
        }
    }
}

/// An estimator as it is made.
pub open spec fn fresh<C: Fn(Calc) -> F32>(m: Arith<C>, config: TransferConfig) -> TransferModel {
    TransferModel {
        size: config.size as nat,
        hop: config.overlap.spec_hop(config.size as nat),
        taper: Seq::new(
            config.size as nat,
            |i: int| window::window_sample(m, config.window, config.size, i as usize),
        ),
        averaging: config.averaging,
        products: Seq::new((config.size / 2 + 1) as nat, |k: int| no_products()),
        frames: 0,
        reference: Seq::empty(),
        measurement: Seq::empty(),
    }
}

/// Folding leaves everything but the average as it is.
pub proof fn lemma_folding_keeps_setup<C: Fn(Calc) -> F32, F: Fn(&[F32]) -> Vec<Complex>>(
    model: TransferModel,
    m: Arith<C>,
    fft: Forward<F>,
    reference: Seq<Seq<F32>>,
    measurement: Seq<Seq<F32>>,
)
    ensures
        model.folded_all(m, fft, reference, measurement) == (TransferModel {
            products: model.folded_all(m, fft, reference, measurement).products,
            frames: spectrum::frames_counted(model.frames, reference.len() as int),
            ..model
        }),
        model.folded_all(m, fft, reference, measurement).products.len() == model.products.len(),
    decreases reference.len(),
{
    if reference.len() > 0 {
        lemma_folding_keeps_setup(
            model,
            m,
            fft,
            reference.drop_last(),
            measurement.drop_last(),
        );
    }
}

/// Feeding leaves the setup as it is.
pub proof fn lemma_pushing_keeps_setup<C: Fn(Calc) -> F32, F: Fn(&[F32]) -> Vec<Complex>>(
    model: TransferModel,
    m: Arith<C>,
    fft: Forward<F>,
    reference: Seq<F32>,
    measurement: Seq<F32>,
)
    ensures
        ({
            let after = model.pushed(m, fft, reference, measurement);
            &&& after.size == model.size
            &&& after.hop == model.hop
            &&& after.taper == model.taper
            &&& after.averaging == model.averaging
            &&& after.products.len() == model.products.len()
        }),
{
    lemma_folding_keeps_setup(
        model,
        m,
        fft,
        model.reference_frames(reference),
        model.measurement_frames(measurement),
    );
}

proof fn lemma_folding_in_runs<C: Fn(Calc) -> F32, F: Fn(&[F32]) -> Vec<Complex>>(
    model: TransferModel,
    m: Arith<C>,
    fft: Forward<F>,
    x1: Seq<Seq<F32>>,
    y1: Seq<Seq<F32>>,
    x2: Seq<Seq<F32>>,
    y2: Seq<Seq<F32>>,
)
    requires
        x1.len() == y1.len(),
        x2.len() == y2.len(),
    ensures
        model.folded_all(m, fft, x1 + x2, y1 + y2) == model.folded_all(m, fft, x1, y1).folded_all(
            m,
            fft,
            x2,
            y2,
        ),
    decreases x2.len(),
{
    if x2.len() == 0 {
        assert(x1 + x2 =~= x1);
        assert(y1 + y2 =~= y1);
    } else {
        assert((x1 + x2).drop_last() =~= x1 + x2.drop_last());
        assert((y1 + y2).drop_last() =~= y1 + y2.drop_last());
        lemma_folding_in_runs(model, m, fft, x1, y1, x2.drop_last(), y2.drop_last());
    }
}

proof fn lemma_folding_ignores_waiting<C: Fn(Calc) -> F32, F: Fn(&[F32]) -> Vec<Complex>>(
    model: TransferModel,
    waiting_x: Seq<F32>,
    waiting_y: Seq<F32>,
    m: Arith<C>,
    fft: Forward<F>,
    x: Seq<Seq<F32>>,
    y: Seq<Seq<F32>>,
)
    ensures
        (TransferModel { reference: waiting_x, measurement: waiting_y, ..model }).folded_all(
            m,
            fft,
            x,
            y,
        ) == (TransferModel {
            reference: waiting_x,
            measurement: waiting_y,
            ..model.folded_all(m, fft, x, y)
        }),
    decreases x.len(),
{
    if x.len() > 0 {
        lemma_folding_ignores_waiting(
            model,
            waiting_x,
            waiting_y,
            m,
            fft,
            x.drop_last(),
            y.drop_last(),
        );
    }
}

/// The result is identical whether matched samples arrive in one block or in two.
pub proof fn lemma_push_in_chunks<C: Fn(Calc) -> F32, F: Fn(&[F32]) -> Vec<Complex>>(
    model: TransferModel,
    m: Arith<C>,
    fft: Forward<F>,
    x1: Seq<F32>,
    y1: Seq<F32>,
    x2: Seq<F32>,
    y2: Seq<F32>,
)
    requires
        0 < model.hop <= model.size,
        model.reference.len() == model.measurement.len(),
        x1.len() == y1.len(),
        x2.len() == y2.len(),
    ensures
        model.pushed(m, fft, x1, y1).pushed(m, fft, x2, y2) == model.pushed(
            m,
            fft,
            x1 + x2,
            y1 + y2,
        ),
{
    let fx = model.reference_frames(x1);
    let fy = model.measurement_frames(y1);
    let middle = model.pushed(m, fft, x1, y1);
    let gx = middle.reference_frames(x2);
    let gy = middle.measurement_frames(y2);
    framing::lemma_frames_in_chunks(model.reference + x1, x2, model.size, model.hop);
    framing::lemma_frames_in_chunks(model.measurement + y1, y2, model.size, model.hop);
    framing::lemma_frames_per_hop(model.reference + x1, model.size, model.hop);
    framing::lemma_frames_per_hop(model.measurement + y1, model.size, model.hop);
    framing::lemma_left_over_length(model.reference + x1, model.measurement + y1, model.size, model.hop);
    assert(model.reference + (x1 + x2) =~= (model.reference + x1) + x2);
    assert(model.measurement + (y1 + y2) =~= (model.measurement + y1) + y2);
    lemma_folding_keeps_setup(model, m, fft, fx, fy);
    framing::lemma_frames_per_hop(middle.reference + x2, model.size, model.hop);
    framing::lemma_frames_per_hop(middle.measurement + y2, model.size, model.hop);
    lemma_folding_in_runs(model, m, fft, fx, fy, gx, gy);
    lemma_folding_ignores_waiting(
        model.folded_all(m, fft, fx, fy),
        middle.reference,
        middle.measurement,
        m,
        fft,
        gx,
        gy,
    );
    assert(middle.pushed(m, fft, x2, y2) =~= model.pushed(m, fft, x1 + x2, y1 + y2));
}

/// Two-channel transfer function estimator.
///
/// Feed matched reference and measurement samples with
/// [`TransferFunction::push`].
#[derive(Debug)]
pub struct TransferFunction {
    sample_rate: F32,
    window: Window,
    reference: SlidingFrame<F32>,
    measurement: SlidingFrame<F32>,
    averaging: TransferAveraging,
    products: Vec<Products>,
    frames: u32,
}

impl View for TransferFunction {
    type V = TransferModel;

    closed spec fn view(&self) -> TransferModel {
        TransferModel {
            size: self.reference.spec_size(),
            hop: self.reference.spec_hop(),
            taper: self.window.spec_samples(),
            averaging: self.averaging,
            products: self.products@,
            frames: self.frames,
            reference: self.reference.waiting(),
            measurement: self.measurement.waiting(),
        }
    }
}

impl TransferFunction {
    pub closed spec fn frames_fit(self) -> bool {
        &&& self.reference.wf()
        &&& self.measurement.wf()
        &&& self.reference.spec_size() == self.measurement.spec_size()
        &&& self.reference.spec_hop() == self.measurement.spec_hop()
    }

    pub closed spec fn spec_sample_rate(self) -> F32 {
        self.sample_rate
    }

    /// Both channels stand at the same sample.
    pub open spec fn wf(self) -> bool {
        &&& self.frames_fit()
        &&& 2 <= self@.size <= usize::MAX
        &&& 0 < self@.hop <= self@.size
        &&& self@.reference.len() < self@.size
        &&& self@.reference.len() == self@.measurement.len()
        &&& self@.taper.len() == self@.size
        &&& self@.products.len() == self@.size / 2 + 1
    }

    /// Build an estimator.
    pub fn new<C: Fn(Calc) -> F32>(m: &Arith<C>, config: TransferConfig) -> (transfer:
        TransferFunction)
        requires
            config.valid(),
        ensures
            transfer.wf(),
            transfer.spec_sample_rate() == config.sample_rate,
            transfer@ == fresh(*m, config),
    {
        let hop: usize = config.overlap.hop(config.size);
        let bins: usize = config.size / 2 + 1;
        let transfer = TransferFunction {
            sample_rate: config.sample_rate,
            window: Window::new(m, config.window, config.size),
            reference: SlidingFrame::new(config.size, hop, num(ZERO)),
            measurement: SlidingFrame::new(config.size, hop, num(ZERO)),
            averaging: config.averaging,
            products: vec![no_products(); bins],
            frames: 0,
        };
        assert(transfer@.products =~= Seq::new(bins as nat, |k: int| no_products()));
        transfer
    }

    /// Feed matched samples, returning how many pairs of frames completed.
    ///
    /// The two slices must be **sample aligned**: element `n` of each is the same
    /// instant.
    pub fn push<C: Fn(Calc) -> F32, F: Fn(&[F32]) -> Vec<Complex>>(
        &mut self,
        m: &Arith<C>,
        fft: &Forward<F>,
        reference: &[F32],
        measurement: &[F32],
    ) -> (produced: usize)
        requires
            old(self).wf(),
            reference@.len() == measurement@.len(),
        ensures
            final(self).wf(),
            final(self).spec_sample_rate() == old(self).spec_sample_rate(),
            final(self)@ == old(self)@.pushed(*m, *fft, reference@, measurement@),
            produced == old(self)@.reference_frames(reference@).len(),
    {
        let ghost start = self@;
        let ghost all_x = start.reference_frames(reference@);
        let ghost all_y = start.measurement_frames(measurement@);
        let mut produced: usize = 0;
        let mut offset: usize = 0;
        proof {
            framing::lemma_frames_per_hop(start.reference + reference@, start.size, start.hop);
            framing::lemma_frames_per_hop(start.measurement + measurement@, start.size, start.hop);
            assert(reference@.skip(0) =~= reference@);
            assert(measurement@.skip(0) =~= measurement@);
            assert(all_x.skip(0) =~= all_x);
            assert(all_y.skip(0) =~= all_y);
        }
        while offset < reference.len()
            invariant
                self.wf(),
                self.sample_rate == old(self).sample_rate,
                start == old(self)@,
                0 < start.hop <= start.size,
                reference@.len() == measurement@.len(),
                offset <= reference@.len(),
                produced <= offset,
                produced <= all_x.len(),
                all_x.len() == all_y.len(),
                all_x == start.reference_frames(reference@),
                all_y == start.measurement_frames(measurement@),
                framing::frames_of(
                    self@.reference + reference@.skip(offset as int),
                    start.size,
                    start.hop,
                ) == all_x.skip(produced as int),
                framing::frames_of(
                    self@.measurement + measurement@.skip(offset as int),
                    start.size,
                    start.hop,
                ) == all_y.skip(produced as int),
                framing::left_over(
                    self@.reference + reference@.skip(offset as int),
                    start.size,
                    start.hop,
                ) == framing::left_over(start.reference + reference@, start.size, start.hop),
                framing::left_over(
                    self@.measurement + measurement@.skip(offset as int),
                    start.size,
                    start.hop,
                ) == framing::left_over(start.measurement + measurement@, start.size, start.hop),
                self@ == (TransferModel {
                    reference: self@.reference,
                    measurement: self@.measurement,
                    ..start.folded_all(
                        *m,
                        *fft,
                        all_x.take(produced as int),
                        all_y.take(produced as int),
                    )
                }),
            decreases reference@.len() - offset,
        {
            let ghost here_x = self@.reference + reference@.skip(offset as int);
            let ghost here_y = self@.measurement + measurement@.skip(offset as int);
            proof {
                lemma_folding_keeps_setup(
                    start,
                    *m,
                    *fft,
                    all_x.take(produced as int),
                    all_y.take(produced as int),
                );
            }
            let taken: usize = self.reference.fill(reference, offset);
            let other: usize = self.measurement.fill(measurement, offset);
            assert(taken == other);
            offset = offset + taken;
            assert(self@.reference + reference@.skip(offset as int) =~= here_x);
            assert(self@.measurement + measurement@.skip(offset as int) =~= here_y);

            if self.reference.is_complete() {
                let ghost frame_x = self@.reference;
                let ghost frame_y = self@.measurement;
                proof {
                    framing::lemma_next_frame(
                        here_x,
                        frame_x,
                        reference@.skip(offset as int),
                        all_x,
                        produced as int,
                        start.size,
                        start.hop,
                    );
                    framing::lemma_next_frame(
                        here_y,
                        frame_y,
                        measurement@.skip(offset as int),
                        all_y,
                        produced as int,
                        start.size,
                        start.hop,
                    );
                    assert(all_x.take(produced + 1).drop_last() =~= all_x.take(produced as int));
                    assert(all_y.take(produced + 1).drop_last() =~= all_y.take(produced as int));
                    assert(all_x.take(produced + 1).last() == frame_x);
                    assert(all_y.take(produced + 1).last() == frame_y);
                }
                self.process_frame(m, fft);
                produced = produced + 1;
                self.reference.slide();
                self.measurement.slide();
            }
        }
        proof {
            assert(reference@.skip(offset as int) =~= Seq::<F32>::empty());
            assert(measurement@.skip(offset as int) =~= Seq::<F32>::empty());
            assert(self@.reference + reference@.skip(offset as int) =~= self@.reference);
            assert(self@.measurement + measurement@.skip(offset as int) =~= self@.measurement);
            lemma_folding_keeps_setup(
                start,
                *m,
                *fft,
                all_x.take(produced as int),
                all_y.take(produced as int),
            );
            assert(all_x.skip(produced as int).len() == 0);
            assert(all_x.take(produced as int) =~= all_x);
            assert(all_y.take(produced as int) =~= all_y);
        }
        produced
    }

    /// Transform the complete pair of frames and fold it into the average.
    fn process_frame<C: Fn(Calc) -> F32, F: Fn(&[F32]) -> Vec<Complex>>(
        &mut self,
        m: &Arith<C>,
        fft: &Forward<F>,
    )
        requires
            old(self).frames_fit(),
            old(self)@.reference.len() == old(self)@.size,
            old(self)@.measurement.len() == old(self)@.size,
            old(self)@.taper.len() == old(self)@.size,
            old(self)@.products.len() == old(self)@.size / 2 + 1,
        ensures
            final(self).reference == old(self).reference,
            final(self).measurement == old(self).measurement,
            final(self).window == old(self).window,
            final(self).sample_rate == old(self).sample_rate,
            final(self)@ == old(self)@.folded(
                *m,
                *fft,
                old(self)@.reference,
                old(self)@.measurement,
            ),
    {
        let mut windowed: Vec<F32> = vec![num(ZERO); self.window.size()];
        self.window.apply_to(m, self.reference.samples(), windowed.as_mut_slice());
        let x = fft.transform(windowed.as_slice());
        self.window.apply_to(m, self.measurement.samples(), windowed.as_mut_slice());
        let y = fft.transform(windowed.as_slice());
        let share = weight(m, self.averaging, self.frames);
        let bins: usize = self.products.len();
        let mut k: usize = 0;
        while k < bins
            invariant
                k <= bins,
                bins == self.products@.len(),
                bins == old(self).products@.len(),
                bins == x@.len(),
                bins == y@.len(),
                self.reference == old(self).reference,
                self.measurement == old(self).measurement,
                self.window == old(self).window,
                self.sample_rate == old(self).sample_rate,
                self.averaging == old(self).averaging,
                self.frames == old(self).frames,
                forall|i: int|
                    0 <= i < k ==> #[trigger] self.products@[i] == moved(
                        m,
                        old(self).products@[i],
                        x@[i],
                        y@[i],
                        share,
                    ),
                forall|i: int| k <= i < bins ==> self.products@[i] == old(self).products@[i],
            decreases bins - k,
        {
            let next = moved(m, self.products[k], x[k], y[k], share);
            self.products.set(k, next);
            k = k + 1;
        }
        self.frames = self.frames.saturating_add(1);
        assert(self@.products =~= old(self)@.folded(
            *m,
            *fft,
            old(self)@.reference,
            old(self)@.measurement,
        ).products);
    }

    /// Magnitude of the response in decibels.
    pub fn write_magnitude_db<C: Fn(Calc) -> F32>(&self, m: &Arith<C>, out: &mut [F32])
        requires
            old(out)@.len() == self@.products.len(),
        ensures
            final(out)@ == Seq::new(
                self@.products.len(),
                |k: int| magnitude_db(m, self@.products[k]),
            ),
    {
        let bins: usize = self.products.len();
        let mut k: usize = 0;
        while k < bins
            invariant
                k <= bins,
                bins == self.products@.len(),
                bins == out@.len(),
                forall|i: int|
                    0 <= i < k ==> #[trigger] out@[i] == magnitude_db(m, self.products@[i]),
            decreases bins - k,
        {
            out[k] = magnitude_db(m, self.products[k]);
            k = k + 1;
        }
        assert(out@ =~= Seq::new(
            self@.products.len(),
            |k: int| magnitude_db(m, self@.products[k]),
        ));
    }

    /// The complex response itself.
    pub fn write_response<C: Fn(Calc) -> F32>(&self, m: &Arith<C>, out: &mut [Complex])
        requires
            old(out)@.len() == self@.products.len(),
        ensures
            final(out)@ == Seq::new(self@.products.len(), |k: int| response(m, self@.products[k])),
    {
        let bins: usize = self.products.len();
        let mut k: usize = 0;
        while k < bins
            invariant
                k <= bins,
                bins == self.products@.len(),
                bins == out@.len(),
                forall|i: int|
                    0 <= i < k ==> #[trigger] out@[i] == response(m, self.products@[i]),
            decreases bins - k,
        {
            out[k] = response(m, self.products[k]);
            k = k + 1;
        }
        assert(out@ =~= Seq::new(self@.products.len(), |k: int| response(m, self@.products[k])));
    }

    /// Phase of the response in degrees.
    pub fn write_phase_degrees<C: Fn(Calc) -> F32>(&self, m: &Arith<C>, out: &mut [F32])
        requires
            old(out)@.len() == self@.products.len(),
        ensures
            final(out)@ == Seq::new(
                self@.products.len(),
                |k: int| phase_degrees(m, self@.products[k]),
            ),
    {
        let bins: usize = self.products.len();
        let mut k: usize = 0;
        while k < bins
            invariant
                k <= bins,
                bins == self.products@.len(),
                bins == out@.len(),
                forall|i: int|
                    0 <= i < k ==> #[trigger] out@[i] == phase_degrees(m, self.products@[i]),
            decreases bins - k,
        {
            out[k] = phase_degrees(m, self.products[k]);
            k = k + 1;
        }
        assert(out@ =~= Seq::new(
            self@.products.len(),
            |k: int| phase_degrees(m, self@.products[k]),
        ));
    }

    /// Coherence. Meaningless until several frames have been averaged.
    pub fn write_coherence<C: Fn(Calc) -> F32>(&self, m: &Arith<C>, out: &mut [F32])
        requires
            old(out)@.len() == self@.products.len(),
        ensures
            final(out)@ == Seq::new(self@.products.len(), |k: int| coherence(m, self@.products[k])),
    {
        let bins: usize = self.products.len();
        let mut k: usize = 0;
        while k < bins
            invariant
                k <= bins,
                bins == self.products@.len(),
                bins == out@.len(),
                forall|i: int|
                    0 <= i < k ==> #[trigger] out@[i] == coherence(m, self.products@[i]),
            decreases bins - k,
        {
            out[k] = coherence(m, self.products[k]);
            k = k + 1;
        }
        assert(out@ =~= Seq::new(self@.products.len(), |k: int| coherence(m, self@.products[k])));
    }

    /// Discard the average and any partial frame.
    pub fn reset(&mut self)
        requires
            old(self).wf(),
        ensures
            final(self).wf(),
            final(self).spec_sample_rate() == old(self).spec_sample_rate(),
            final(self)@ == old(self)@.emptied(),
    {
        let bins: usize = self.products.len();
        let mut k: usize = 0;
        while k < bins
            invariant
                k <= bins,
                bins == self.products@.len(),
                bins == old(self).products@.len(),
                self.reference == old(self).reference,
                self.measurement == old(self).measurement,
                self.window == old(self).window,
                self.sample_rate == old(self).sample_rate,
                self.averaging == old(self).averaging,
                forall|i: int| 0 <= i < k ==> #[trigger] self.products@[i] == no_products(),
            decreases bins - k,
        {
            self.products.set(k, no_products());
            k = k + 1;
        }
        self.reference.clear();
        self.measurement.clear();
        self.frames = 0;
        assert(self@ =~= old(self)@.emptied());
    }

    /// Pairs of frames folded into the current average.
    pub fn frames(&self) -> (frames: u32)
        ensures
            frames == self@.frames,
    {
        self.frames
    }

    /// Number of bins.
    pub fn bins(&self) -> (bins: usize)
        ensures
            bins == self@.products.len(),
    {
        self.products.len()
    }

    /// Transform size.
    pub fn size(&self) -> (size: usize)
        ensures
            size == self@.size,
    {
        self.reference.size()
    }

    /// Samples between frames.
    pub fn hop(&self) -> (hop: usize)
        ensures
            hop == self@.hop,
    {
        self.reference.hop()
    }

    /// Width of one bin in hertz.
    pub fn bin_spacing_hz<C: Fn(Calc) -> F32>(&self, m: &Arith<C>) -> (spacing: F32)
        ensures
            spacing == m.over(self.spec_sample_rate(), m.count(self@.size as usize)),
    {
        m.over(self.sample_rate, m.count(self.size()))
    }

    /// Centre frequency of bin `index`.
    pub fn bin_frequency<C: Fn(Calc) -> F32>(&self, m: &Arith<C>, index: usize) -> (hz: F32)
        ensures
            hz == m.times(
                m.count(index),
                m.over(self.spec_sample_rate(), m.count(self@.size as usize)),
            ),
    {
        m.times(m.count(index), self.bin_spacing_hz(m))
    }
}

/// Half a turn and a whole one, in degrees.
pub const HALF_TURN: u32 = 0x4334_0000;

pub const MINUS_HALF_TURN: u32 = 0xC334_0000;

pub const WHOLE_TURN: u32 = 0x43B4_0000;

/// The offset after the point `i` of a wrapped curve: one turn against every jump
/// of more than half a turn so far.
pub open spec fn unwrap_offset<C: Fn(Calc) -> F32>(m: Arith<C>, raw: Seq<F32>, i: int) -> F32
    decreases i,
{
    if i <= 0 {
        turned(&m, num(ZERO), m.minus(raw[0], raw[0]))
    } else {
        turned(&m, unwrap_offset(m, raw, i - 1), m.minus(raw[i], raw[i - 1]))
    }
}

/// How an offset moves over a step of the wrapped curve.
#[verifier::allow_in_spec]
pub fn turned<C: Fn(Calc) -> F32>(m: &Arith<C>, offset: F32, step: F32) -> F32
    returns
        (if num(HALF_TURN).lt(step) {
            m.minus(offset, num(WHOLE_TURN))
        } else if step.lt(num(MINUS_HALF_TURN)) {
            m.plus(offset, num(WHOLE_TURN))
        } else {
            offset
        }),
{
    if num(HALF_TURN).lt(step) {
        m.minus(offset, num(WHOLE_TURN))
    } else if step.lt(num(MINUS_HALF_TURN)) {
        m.plus(offset, num(WHOLE_TURN))
    } else {
        offset
    }
}

/// Unwrap a wrapped phase curve in place, removing the jumps of a whole turn.
///
/// Wrapped phase is what a display wants; unwrapped is what group delay and any
/// slope measurement need, because a wrap looks like an infinite derivative.
pub fn unwrap_phase_degrees<C: Fn(Calc) -> F32>(m: &Arith<C>, phase: &mut [F32])
    ensures
        final(phase)@ == Seq::new(
            old(phase)@.len(),
            |i: int| m.plus(old(phase)@[i], unwrap_offset(*m, old(phase)@, i)),
        ),
{
    let n: usize = phase.len();
    let ghost raw = phase@;
    let mut offset = num(ZERO);
    let mut previous = if n > 0 {
        phase[0]
    } else {
        num(ZERO)
    };
    let mut i: usize = 0;
    while i < n
        invariant
            i <= n,
            n == raw.len(),
            n == phase@.len(),
            raw == old(phase)@,
            n > 0 ==> previous == if i == 0 {
                raw[0]
            } else {
                raw[i - 1]
            },
            offset == if i == 0 {
                num(ZERO)
            } else {
                unwrap_offset(*m, raw, i - 1)
            },
            forall|k: int| i <= k < n ==> #[trigger] phase@[k] == raw[k],
            forall|k: int|
                0 <= k < i ==> #[trigger] phase@[k] == m.plus(raw[k], unwrap_offset(*m, raw, k)),
        decreases n - i,
    {
        let value = phase[i];
        offset = turned(m, offset, m.minus(value, previous));
        previous = value;
        phase[i] = m.plus(value, offset);
        i = i + 1;
    }
    assert(phase@ =~= Seq::new(
        raw.len(),
        |i: int| m.plus(raw[i], unwrap_offset(*m, raw, i)),
    ));
}

/// Unwrapping leaves the first value as it is, wherever a value less itself is zero and
/// adding zero changes nothing.
pub proof fn lemma_unwrapping_keeps_the_first<C: Fn(Calc) -> F32>(m: Arith<C>, raw: Seq<F32>)
    requires
        raw.len() > 0,
        m.minus(raw[0], raw[0]) == num(ZERO),
        m.plus(raw[0], num(ZERO)) == raw[0],
    ensures
        m.plus(raw[0], unwrap_offset(m, raw, 0)) == raw[0],
{
}

/// Whether a curve has no jump of more than half a turn.
pub open spec fn smooth<C: Fn(Calc) -> F32>(m: Arith<C>, raw: Seq<F32>) -> bool {
    forall|i: int|
        0 < i < raw.len() ==> !num(HALF_TURN).lt(#[trigger] m.minus(raw[i], raw[i - 1]))
            && !m.minus(raw[i], raw[i - 1]).lt(num(MINUS_HALF_TURN))
}

/// A curve without jumps has nothing to unwrap and stays as it is: unwrapping again
/// what was unwrapped changes nothing.
pub proof fn lemma_smooth_curves_stay<C: Fn(Calc) -> F32>(m: Arith<C>, raw: Seq<F32>)
    requires
        smooth(m, raw),
        raw.len() > 0 ==> m.minus(raw[0], raw[0]) == num(ZERO),
        forall|i: int| 0 <= i < raw.len() ==> #[trigger] m.plus(raw[i], num(ZERO)) == raw[i],
    ensures
        Seq::new(raw.len(), |i: int| m.plus(raw[i], unwrap_offset(m, raw, i))) == raw,
{
    assert forall|i: int| 0 <= i < raw.len() implies m.plus(
        raw[i],
        #[trigger] unwrap_offset(m, raw, i),
    ) == raw[i] by {
        lemma_smooth_offset(m, raw, i);
        assert(m.plus(raw[i], num(ZERO)) == raw[i]);
    }
    assert(Seq::new(raw.len(), |i: int| m.plus(raw[i], unwrap_offset(m, raw, i))) =~= raw);
}

proof fn lemma_smooth_offset<C: Fn(Calc) -> F32>(m: Arith<C>, raw: Seq<F32>, i: int)
    requires
        smooth(m, raw),
        0 <= i < raw.len(),
        m.minus(raw[0], raw[0]) == num(ZERO),
    ensures
        unwrap_offset(m, raw, i) == num(ZERO),
    decreases i,
{
    if i > 0 {
        lemma_smooth_offset(m, raw, i - 1);
        assert(!num(HALF_TURN).lt(m.minus(raw[i], raw[i - 1])));
    }
}

/// A signal with a gain.
pub open spec fn gained<C: Fn(Calc) -> F32>(m: Arith<C>, signal: Seq<F32>, gain: F32) -> Seq<F32> {
    Seq::new(signal.len(), |i: int| m.times(signal[i], gain))
}

/// Whether the transform of a tapered frame with a gain is the transform of the tapered
/// frame with that gain.
pub open spec fn homogeneous<C: Fn(Calc) -> F32, F: Fn(&[F32]) -> Vec<Complex>>(
    m: Arith<C>,
    fft: Forward<F>,
    taper: Seq<F32>,
    gain: F32,
) -> bool {
    forall|frame: Seq<F32>, k: int| #[trigger]
        fft.of(window::products(m, gained(m, frame, gain), taper))[k] == m.scaled(
            fft.of(window::products(m, frame, taper))[k],
            gain,
        )
}

/// Whether the cross-product of a bin is its reference power with a gain.
pub open spec fn in_proportion<C: Fn(Calc) -> F32>(m: Arith<C>, gain: F32, bin: Products) -> bool {
    bin.xy == (Complex { re: m.times(gain, bin.xx), im: num(ZERO) })
}

/// Whether the arithmetic keeps a gain as it is: through the average of a bin, and when
/// it is read off by division.
pub open spec fn keeps_gain<C: Fn(Calc) -> F32>(m: Arith<C>, gain: F32) -> bool {
    &&& in_proportion(m, gain, no_products())
    &&& forall|before: Products, x: Complex, share: F32|
        in_proportion(m, gain, before) ==> in_proportion(
            m,
            gain,
            #[trigger] moved(&m, before, x, m.scaled(x, gain), share),
        )
    &&& forall|xx: F32|
        num(ZERO).less(xx) ==> m.over(
            m.norm(Complex { re: #[trigger] m.times(gain, xx), im: num(ZERO) }),
            xx,
        ) == gain.spec_abs()
}

proof fn lemma_frames_gained<C: Fn(Calc) -> F32>(
    m: Arith<C>,
    signal: Seq<F32>,
    gain: F32,
    size: nat,
    hop: nat,
)
    ensures
        ({
            let plain = framing::frames_of(signal, size, hop);
            framing::frames_of(gained(m, signal, gain), size, hop) == Seq::new(
                plain.len(),
                |i: int| gained(m, plain[i], gain),
            )
        }),
    decreases signal.len(),
{
    let louder = gained(m, signal, gain);
    let plain = framing::frames_of(signal, size, hop);
    if 0 < hop <= size && size <= signal.len() {
        lemma_frames_gained(m, signal.skip(hop as int), gain, size, hop);
        assert(louder.skip(hop as int) =~= gained(m, signal.skip(hop as int), gain));
        assert(louder.take(size as int) =~= gained(m, signal.take(size as int), gain));
        let rest = framing::frames_of(signal.skip(hop as int), size, hop);
        assert forall|i: int| 0 <= i < plain.len() implies #[trigger] framing::frames_of(
            louder,
            size,
            hop,
        )[i] == gained(m, plain[i], gain) by {
            if i > 0 {
                assert(plain[i] == rest[i - 1]);
            }
        }
    }
    assert(framing::frames_of(louder, size, hop) =~= Seq::new(
        plain.len(),
        |i: int| gained(m, plain[i], gain),
    ));
}

proof fn lemma_folding_keeps_proportion<C: Fn(Calc) -> F32, F: Fn(&[F32]) -> Vec<Complex>>(
    model: TransferModel,
    m: Arith<C>,
    fft: Forward<F>,
    frames: Seq<Seq<F32>>,
    louder: Seq<Seq<F32>>,
    gain: F32,
)
    requires
        homogeneous(m, fft, model.taper, gain),
        keeps_gain(m, gain),
        louder == Seq::new(frames.len(), |i: int| gained(m, frames[i], gain)),
        forall|k: int|
            0 <= k < model.products.len() ==> in_proportion(m, gain, #[trigger] model.products[k]),
    ensures
        forall|k: int|
            0 <= k < model.products.len() ==> in_proportion(
                m,
                gain,
                #[trigger] model.folded_all(m, fft, frames, louder).products[k],
            ),
    decreases frames.len(),
{
    if frames.len() > 0 {
        let rest = frames.drop_last();
        assert(louder.drop_last() =~= Seq::new(rest.len(), |i: int| gained(m, rest[i], gain)));
        lemma_folding_keeps_proportion(model, m, fft, rest, louder.drop_last(), gain);
        lemma_folding_keeps_setup(model, m, fft, rest, louder.drop_last());
        let before = model.folded_all(m, fft, rest, louder.drop_last());
        let frame = frames.last();
        let share = weight(&m, before.averaging, before.frames);
        let x = fft.of(window::products(m, frame, before.taper));
        assert forall|k: int| 0 <= k < model.products.len() implies in_proportion(
            m,
            gain,
            #[trigger] model.folded_all(m, fft, frames, louder).products[k],
        ) by {
            assert(in_proportion(m, gain, before.products[k]));
            assert(louder.last() == gained(m, frame, gain));
            let y = fft.of(window::products(m, gained(m, frame, gain), before.taper))[k];
            assert(y == m.scaled(x[k], gain));
            let bin = moved(&m, before.products[k], x[k], m.scaled(x[k], gain), share);
            assert(in_proportion(m, gain, bin));
        }
    }
}

/// A plain gain shows as one offset in every bin that the reference has power in, and
/// as the floor in every other: wherever the transform carries a gain through, and the
/// arithmetic keeps it.
pub proof fn lemma_gain_is_one_offset<C: Fn(Calc) -> F32, F: Fn(&[F32]) -> Vec<Complex>>(
    m: Arith<C>,
    fft: Forward<F>,
    config: TransferConfig,
    reference: Seq<F32>,
    gain: F32,
    bin: int,
)
    requires
        homogeneous(m, fft, fresh(m, config).taper, gain),
        keeps_gain(m, gain),
        num(ZERO).less(gain.spec_abs()),
        0 <= bin < config.size / 2 + 1,
    ensures
        ({
            let after = fresh(m, config).pushed(
                m,
                fft,
                reference,
                gained(m, reference, gain),
            ).products[bin];
            magnitude_db(&m, after) == if num(ZERO).less(after.xx) {
                m.times(num(TWENTY), m.log10(gain.spec_abs()))
            } else {
                num(MAGNITUDE_FLOOR_DB)
            }
        }),
{
    let made = fresh(m, config);
    let louder = gained(m, reference, gain);
    assert(made.reference + reference =~= reference);
    assert(made.measurement + louder =~= louder);
    lemma_frames_gained(m, reference, gain, made.size, made.hop);
    let frames = made.reference_frames(reference);
    lemma_folding_keeps_proportion(
        made,
        m,
        fft,
        frames,
        made.measurement_frames(louder),
        gain,
    );
    let after = made.folded_all(m, fft, frames, made.measurement_frames(louder)).products[bin];
    assert(in_proportion(m, gain, after));
    if num(ZERO).less(after.xx) {
        assert(m.over(
            m.norm(Complex { re: m.times(gain, after.xx), im: num(ZERO) }),
            after.xx,
        ) == gain.spec_abs());
    }
}

/// What a pair of frames does to the averages of a bin: each moves by a share of its
/// distance to what the pair has there, which is the power of either spectrum and the
/// measurement's times the conjugate of the reference's. The share is one among all
/// pairs, or the fraction that was set after a first pair that counts whole.
pub proof fn lemma_how_a_pair_is_averaged<C: Fn(Calc) -> F32, F: Fn(&[F32]) -> Vec<Complex>>(
    model: TransferModel,
    m: Arith<C>,
    fft: Forward<F>,
    reference: Seq<F32>,
    measurement: Seq<F32>,
    x: Seq<F32>,
    y: Seq<F32>,
    k: int,
)
    requires
        0 <= k < model.products.len(),
        x.len() == reference.len(),
        y.len() == measurement.len(),
        forall|i: int|
            0 <= i < x.len() ==> #[trigger] x[i] == m.times(reference[i], model.taper[i]),
        forall|i: int|
            0 <= i < y.len() ==> #[trigger] y[i] == m.times(measurement[i], model.taper[i]),
    ensures
        ({
            let before = model.products[k];
            let after = model.folded(m, fft, reference, measurement).products[k];
            let (a, b) = (fft.of(x)[k], fft.of(y)[k]);
            let share = match model.averaging {
                TransferAveraging::Infinite => m.over(
                    num(ONE),
                    m.plus(m.count(model.frames as usize), num(ONE)),
                ),
                TransferAveraging::Exponential { alpha } => if model.frames == 0 {
                    num(ONE)
                } else {
                    alpha.spec_clamp(num(ZERO), num(ONE))
                },
            };
            &&& after.xx == m.plus(
                before.xx,
                m.times(m.minus(m.norm_sqr(a), before.xx), share),
            )
            &&& after.yy == m.plus(
                before.yy,
                m.times(m.minus(m.norm_sqr(b), before.yy), share),
            )
            &&& after.xy == m.sum(
                before.xy,
                m.scaled(m.difference(m.product(b, a.conj()), before.xy), share),
            )
        }),
{
    assert(window::products(m, reference, model.taper) =~= x);
    assert(window::products(m, measurement, model.taper) =~= y);
}

/// What the averages of a bin say. Response and magnitude are the cross-product over the
/// reference's power, phase is the angle of the cross-product, and coherence is its
/// squared magnitude over the product of both powers. A bin without power in the
/// reference says nothing of the response, one without power in either nothing of
/// coherence.
pub proof fn lemma_what_a_bin_says<C: Fn(Calc) -> F32>(m: Arith<C>, bin: Products)
    ensures
        num(ZERO).less(bin.xx) ==> response(&m, bin) == m.shared(bin.xy, bin.xx),
        !num(ZERO).less(bin.xx) ==> response(&m, bin) == (Complex {
            re: num(ZERO),
            im: num(ZERO),
        }),
        num(ZERO).less(bin.xx) && num(ZERO).less(m.over(m.norm(bin.xy), bin.xx)) ==> magnitude_db(
            &m,
            bin,
        ) == m.times(num(TWENTY), m.log10(m.over(m.norm(bin.xy), bin.xx))),
        !num(ZERO).less(bin.xx) ==> magnitude_db(&m, bin) == num(MAGNITUDE_FLOOR_DB),
        phase_degrees(&m, bin) == m.degrees(m.arg(bin.xy)),
        num(ZERO).less(m.times(bin.xx, bin.yy)) ==> coherence(&m, bin) == m.over(
            m.norm_sqr(bin.xy),
            m.times(bin.xx, bin.yy),
        ).spec_clamp(num(ZERO), num(ONE)),
        !num(ZERO).less(m.times(bin.xx, bin.yy)) ==> coherence(&m, bin) == num(ZERO),
{
}

/// Unwrapping adds the same turns to a value as to the one before it, a turn less after
/// a step up of more than half a turn, and a turn more after such a step down.
pub proof fn lemma_unwrapping_a_step<C: Fn(Calc) -> F32>(m: Arith<C>, raw: Seq<F32>, i: int)
    requires
        0 < i < raw.len(),
    ensures
        ({
            let step = m.minus(raw[i], raw[i - 1]);
            let (before, after) = (unwrap_offset(m, raw, i - 1), unwrap_offset(m, raw, i));
            &&& num(HALF_TURN).less(step) ==> after == m.minus(before, num(WHOLE_TURN))
            &&& step.less(num(MINUS_HALF_TURN)) ==> after == m.plus(before, num(WHOLE_TURN))
            &&& !num(HALF_TURN).less(step) && !step.less(num(MINUS_HALF_TURN)) ==> after == before
        }),
{
}

/// An estimator that is reset is as it was made, whatever it was fed.
pub proof fn lemma_reset_is_a_new_start<C: Fn(Calc) -> F32, F: Fn(&[F32]) -> Vec<Complex>>(
    m: Arith<C>,
    fft: Forward<F>,
    config: TransferConfig,
    reference: Seq<F32>,
    measurement: Seq<F32>,
)
    ensures
        fresh(m, config).pushed(m, fft, reference, measurement).emptied() == fresh(m, config),
        forall|k: int|
            0 <= k < fresh(m, config).products.len() ==> (#[trigger] fresh(
                m,
                config,
            ).products[k]).xx == num(ZERO) && fresh(m, config).products[k].yy == num(ZERO)
                && fresh(m, config).products[k].xy == (Complex { re: num(ZERO), im: num(ZERO) }),
        fresh(m, config).products.len() == config.size / 2 + 1,
{
    let made = fresh(m, config);
    lemma_pushing_keeps_setup(made, m, fft, reference, measurement);
    assert(made.pushed(m, fft, reference, measurement).emptied() =~= made);
}

} // verus!

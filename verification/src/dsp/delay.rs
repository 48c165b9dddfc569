//! Finding the propagation delay between reference and measurement.
//!
//! A microphone at a distance hears everything late. Left uncompensated, a
//! constant delay is a phase that rotates ever faster with frequency, and the two
//! channels stop lining up within one analysis frame. The delay is read off the
//! peak of the cross-correlation of the two.

use vstd::prelude::*;

use crate::arith;
use crate::arith::{magnitudes_of, squares_of, sum_of, Arith, Calc, Complex};
use crate::dsp::fft;
use crate::dsp::fft::{make_ends_real, origin, pad, Forward, Inverse};
use crate::dsp::peak;
use crate::dsp::peak::{find_last_peak, parabola_offset};
use crate::ieee::F32;
use crate::numbers::{num, HALF, ZERO};

verus! {

/// The greatest energy that still counts as silence.
pub const SILENCE: u32 = 0x3400_0000;

/// The least magnitude of a bin whose phase means anything.
pub const LEAST_MAGNITUDE: u32 = 0x1E3C_E508;

/// The speed of sound in metres per second.
pub const SPEED_OF_SOUND: u32 = 0x43AB_8000;

/// The correlation window of acoustic work.
pub const ACOUSTIC_WINDOW: usize = 16_384;

/// How the cross-spectrum is weighted before transforming back.
#[derive(Debug, Clone, Copy, PartialEq, Eq, Structural)]
pub enum Weighting {
    /// Phase transform. Whitens the cross-spectrum so every frequency counts
    /// equally, giving a sharp peak in a reverberant space.
    Phat,
    /// No weighting. Better when noise dominates, worse when reflections do.
    Off,
}

impl Default for Weighting {
    fn default() -> (weighting: Weighting)
        ensures
            weighting == Weighting::Phat,
    {
        Weighting::Phat
    }
}

/// What the finder concluded.
#[derive(Debug, Clone, Copy, PartialEq, Eq, Structural)]
pub struct DelayEstimate {
    /// Delay in samples. Positive means the measurement arrived after the
    /// reference.
    pub samples: F32,
    /// The same delay in seconds.
    pub seconds: F32,
    /// Height of the correlation peak relative to the mean.
    pub confidence: F32,
}

impl DelayEstimate {
    /// Distance the sound travelled. Only meaningful for an acoustic path.
    #[verifier::allow_in_spec]
    pub fn metres<C: Fn(Calc) -> F32>(&self, m: &Arith<C>) -> F32
        returns
            m.times(self.seconds, num(SPEED_OF_SOUND)),
    {
        m.times(self.seconds, num(SPEED_OF_SOUND))
    }
}

/// The energy of a signal.
pub open spec fn energy<C: Fn(Calc) -> F32>(m: Arith<C>, signal: Seq<F32>) -> F32 {
    arith::total(m, arith::squares(m, signal))
}

/// One bin of the weighted cross-spectrum. A measurement that lags the reference
/// produces a positive peak position.
#[verifier::allow_in_spec]
pub fn crossed<C: Fn(Calc) -> F32>(
    m: &Arith<C>,
    weighting: Weighting,
    x: Complex,
    y: Complex,
) -> Complex
    returns
        (match weighting {
            Weighting::Off => m.product(y, x.conj()),
            Weighting::Phat => if num(LEAST_MAGNITUDE).lt(m.norm(m.product(y, x.conj()))) {
                m.shared(m.product(y, x.conj()), m.norm(m.product(y, x.conj())))
            } else {
                origin()
            },
        }),
{
    let product = m.product(y, x.conj());
    match weighting {
        Weighting::Off => product,
        Weighting::Phat => {
            let magnitude = m.norm(product);
            if num(LEAST_MAGNITUDE).lt(magnitude) {
                m.shared(product, magnitude)
            } else {
                origin()
            }
        },
    }
}

/// The weighted cross-spectrum of two spectra.
pub open spec fn cross_spectrum<C: Fn(Calc) -> F32>(
    m: Arith<C>,
    weighting: Weighting,
    x: Seq<Complex>,
    y: Seq<Complex>,
) -> Seq<Complex> {
    fft::real_ended(Seq::new(x.len(), |k: int| crossed(&m, weighting, x[k], y[k])))
}

/// The circular correlation of two signals.
pub open spec fn correlation<
    C: Fn(Calc) -> F32,
    F: Fn(&[F32]) -> Vec<Complex>,
    I: Fn(&[Complex]) -> Vec<F32>,
>(
    m: Arith<C>,
    forward: Forward<F>,
    inverse: Inverse<I>,
    weighting: Weighting,
    reference: Seq<F32>,
    measurement: Seq<F32>,
) -> Seq<F32> {
    inverse.of(cross_spectrum(m, weighting, forward.of(reference), forward.of(measurement)))
}

/// The place before `at` in a circle of `size` places.
pub open spec fn place_before(at: int, size: int) -> int {
    if at == 0 {
        size - 1
    } else {
        at - 1
    }
}

/// The place after `at` in a circle of `size` places.
pub open spec fn place_after(at: int, size: int) -> int {
    if at + 1 == size {
        0
    } else {
        at + 1
    }
}

/// What the peak of a correlation says.
///
/// The correlation is circular: the neighbours of the peak wrap, and the upper half
/// represents negative lags, the measurement arriving before the reference.
pub open spec fn concluded<C: Fn(Calc) -> F32>(
    m: Arith<C>,
    sample_rate: F32,
    correlation: Seq<F32>,
) -> DelayEstimate {
    let size = correlation.len() as int;
    let at = peak::last_peak(correlation);
    let mean = m.over(
        arith::total(m, arith::magnitudes(correlation)),
        m.count(size as usize),
    );
    let offset = parabola_offset(
        &m,
        correlation[place_before(at, size)],
        correlation[at],
        correlation[place_after(at, size)],
    );
    let position = m.plus(m.count(at as usize), offset);
    let samples = if at > size / 2 {
        m.minus(position, m.count(size as usize))
    } else {
        position
    };
    DelayEstimate {
        samples,
        seconds: m.over(samples, sample_rate),
        confidence: if num(ZERO).lt(mean) {
            m.over(correlation[at], mean)
        } else {
            num(ZERO)
        },
    }
}

/// Finds the delay between two signals by cross-correlation.
#[derive(Debug)]
pub struct DelayFinder {
    sample_rate: F32,
    size: usize,
    weighting: Weighting,
}

/// What a finder is set to.
pub struct DelayModel {
    pub sample_rate: F32,
    /// Correlation window length.
    pub size: nat,
    pub weighting: Weighting,
}

impl DelayModel {
    /// What stands in the correlation window for a signal: as much of it as fits, and
    /// zeros behind it.
    pub open spec fn framed(self, signal: Seq<F32>) -> Seq<F32> {
        fft::padded(signal.take(self.taken(signal)), self.size)
    }

    /// How much of a signal goes into the window.
    pub open spec fn taken(self, signal: Seq<F32>) -> int {
        if self.size <= signal.len() {
            self.size as int
        } else {
            signal.len() as int
        }
    }

    /// Whether there is a delay to be found: neither signal is silent.
    pub open spec fn sounds<C: Fn(Calc) -> F32>(
        self,
        m: Arith<C>,
        reference: Seq<F32>,
        measurement: Seq<F32>,
    ) -> bool {
        &&& reference.len() > 0
        &&& measurement.len() > 0
        &&& !energy(m, self.framed(reference)).le(num(SILENCE))
        &&& !energy(m, self.framed(measurement)).le(num(SILENCE))
    }

    /// The delay from `reference` to `measurement`, `None` when either is silent.
    pub open spec fn found<
        C: Fn(Calc) -> F32,
        F: Fn(&[F32]) -> Vec<Complex>,
        I: Fn(&[Complex]) -> Vec<F32>,
    >(
        self,
        m: Arith<C>,
        forward: Forward<F>,
        inverse: Inverse<I>,
        reference: Seq<F32>,
        measurement: Seq<F32>,
    ) -> Option<DelayEstimate> {
        if self.sounds(m, reference, measurement) {
            Some(
                concluded(
                    m,
                    self.sample_rate,
                    correlation(
                        m,
                        forward,
                        inverse,
                        self.weighting,
                        self.framed(reference),
                        self.framed(measurement),
                    ),
                ),
            )
        } else {
            None
        }
    }
}

impl View for DelayFinder {
    type V = DelayModel;

    closed spec fn view(&self) -> DelayModel {
        DelayModel {
            sample_rate: self.sample_rate,
            size: self.size as nat,
            weighting: self.weighting,
        }
    }
}

impl DelayFinder {
    /// Whether a correlation window and a sample rate make a finder.
    #[verifier::allow_in_spec]
    pub fn accepts(sample_rate: F32, size: usize) -> bool
        returns
            size >= 4 && size % 2 == 0 && num(ZERO).lt(sample_rate),
    {
        size >= 4 && size % 2 == 0 && num(ZERO).lt(sample_rate)
    }

    pub open spec fn wf(self) -> bool {
        self@.size <= usize::MAX && Self::accepts(self@.sample_rate, self@.size as usize)
    }

    /// Build a finder over a correlation window of `size` samples.
    ///
    /// The largest delay that can be found is half of that in either direction,
    /// because beyond that the circular correlation wraps and a late arrival is
    /// indistinguishable from an early one.
    pub fn new(sample_rate: F32, size: usize, weighting: Weighting) -> (finder: DelayFinder)
        requires
            Self::accepts(sample_rate, size),
        ensures
            finder.wf(),
            finder@ == (DelayModel { sample_rate, size: size as nat, weighting }),
    {
        DelayFinder { sample_rate, size, weighting }
    }

    /// A finder with sensible defaults for acoustic work.
    pub fn acoustic(sample_rate: F32) -> (finder: DelayFinder)
        requires
            num(ZERO).lt(sample_rate),
        ensures
            finder.wf(),
            finder@ == (DelayModel {
                sample_rate,
                size: ACOUSTIC_WINDOW as nat,
                weighting: Weighting::Phat,
            }),
    {
        Self::new(sample_rate, ACOUSTIC_WINDOW, Weighting::Phat)
    }

    /// Correlation window length.
    pub fn size(&self) -> (size: usize)
        ensures
            size == self@.size,
    {
        self.size
    }

    /// Largest delay this finder can resolve, in either direction.
    pub fn max_delay_samples(&self) -> (most: usize)
        ensures
            most == self@.size / 2,
    {
        self.size / 2
    }

    /// Estimate the delay from `reference` to `measurement`.
    ///
    /// Both are truncated or padded with zeros to the correlation size. Returns
    /// `None` when either signal is silent, since a delay between nothing and
    /// nothing is not a number.
    pub fn find<
        C: Fn(Calc) -> F32,
        F: Fn(&[F32]) -> Vec<Complex>,
        I: Fn(&[Complex]) -> Vec<F32>,
    >(
        &self,
        m: &Arith<C>,
        forward: &Forward<F>,
        inverse: &Inverse<I>,
        reference: &[F32],
        measurement: &[F32],
    ) -> (estimate: Option<DelayEstimate>)
        requires
            self.wf(),
        ensures
            estimate == self@.found(*m, *forward, *inverse, reference@, measurement@),
    {
        if reference.len() == 0 || measurement.len() == 0 {
            return None;
        }
        let padded_reference = self.frame(reference);
        let padded_measurement = self.frame(measurement);

        let reference_energy = sum_of(m, squares_of(m, padded_reference.as_slice()).as_slice());
        let measurement_energy = sum_of(m, squares_of(m, padded_measurement.as_slice()).as_slice());
        if reference_energy.le(num(SILENCE)) || measurement_energy.le(num(SILENCE)) {
            return None;
        }
        let x = forward.transform(padded_reference.as_slice());
        let y = forward.transform(padded_measurement.as_slice());

        let bins: usize = x.len();
        let mut cross: Vec<Complex> = Vec::new();
        let mut k: usize = 0;
        while k < bins
            invariant
                k <= bins,
                bins == x@.len(),
                bins == y@.len(),
                cross@.len() == k,
                forall|i: int|
                    0 <= i < k ==> #[trigger] cross@[i] == crossed(
                        m,
                        self.weighting,
                        x@[i],
                        y@[i],
                    ),
            decreases bins - k,
        {
            cross.push(crossed(m, self.weighting, x[k], y[k]));
            k = k + 1;
        }
        assert(cross@ =~= Seq::new(
            x@.len(),
            |k: int| crossed(m, self.weighting, x@[k], y@[k]),
        ));
        make_ends_real(&mut cross);
        let correlation = inverse.transform(cross.as_slice());
        assert(correlation@.len() == self.size);
        Some(self.locate_peak(m, correlation.as_slice()))
    }

    /// As much of a signal as fits the window, and zeros behind it.
    fn frame(&self, signal: &[F32]) -> (frame: Vec<F32>)
        ensures
            frame@ == self@.framed(signal@),
    {
        let take: usize = if self.size <= signal.len() {
            self.size
        } else {
            signal.len()
        };
        pad(signal, take, self.size)
    }

    /// What the peak of a correlation says.
    fn locate_peak<C: Fn(Calc) -> F32>(&self, m: &Arith<C>, correlation: &[F32]) -> (estimate:
        DelayEstimate)
        requires
            self.wf(),
            correlation@.len() == self@.size,
        ensures
            estimate == concluded(*m, self@.sample_rate, correlation@),
    {
        let size: usize = self.size;
        let index: usize = match find_last_peak(correlation) {
            Some(index) => index,
            None => 0,
        };
        let peak = correlation[index];
        let mean = m.over(sum_of(m, magnitudes_of(correlation).as_slice()), m.count(size));
        let confidence = if num(ZERO).lt(mean) {
            m.over(peak, mean)
        } else {
            num(ZERO)
        };
        let before = if index == 0 {
            correlation[size - 1]
        } else {
            correlation[index - 1]
        };
        let after = if index + 1 == size {
            correlation[0]
        } else {
            correlation[index + 1]
        };
        let offset = parabola_offset(m, before, peak, after);
        let position = m.plus(m.count(index), offset);
        let samples = if index > size / 2 {
            m.minus(position, m.count(size))
        } else {
            position
        };
        DelayEstimate { samples, seconds: m.over(samples, self.sample_rate), confidence }
    }
}

/// There is an estimate exactly where neither signal is silent: a delay between
/// nothing and nothing is not a number.
pub proof fn lemma_delay_between_sounds<
    C: Fn(Calc) -> F32,
    F: Fn(&[F32]) -> Vec<Complex>,
    I: Fn(&[Complex]) -> Vec<F32>,
>(
    finder: DelayModel,
    m: Arith<C>,
    forward: Forward<F>,
    inverse: Inverse<I>,
    reference: Seq<F32>,
    measurement: Seq<F32>,
)
    ensures
        finder.found(m, forward, inverse, reference, measurement) is Some <==> finder.sounds(
            m,
            reference,
            measurement,
        ),
        reference.len() == 0 || measurement.len() == 0 ==> finder.found(
            m,
            forward,
            inverse,
            reference,
            measurement,
        ) is None,
{
}

/// Each signal counts as far as the window reaches: what lies beyond it makes no
/// difference, and neither do zeros that follow a shorter one.
pub proof fn lemma_window_is_all_that_counts<
    C: Fn(Calc) -> F32,
    F: Fn(&[F32]) -> Vec<Complex>,
    I: Fn(&[Complex]) -> Vec<F32>,
>(
    finder: DelayModel,
    m: Arith<C>,
    forward: Forward<F>,
    inverse: Inverse<I>,
    reference: Seq<F32>,
    measurement: Seq<F32>,
)
    ensures
        ({
            let (r, s) = (finder.taken(reference), finder.taken(measurement));
            finder.found(m, forward, inverse, reference, measurement) == finder.found(
                m,
                forward,
                inverse,
                reference.take(r),
                measurement.take(s),
            )
        }),
        reference.len() > 0 && measurement.len() > 0 && finder.size > 0 ==> finder.found(
            m,
            forward,
            inverse,
            reference,
            measurement,
        ) == finder.found(
            m,
            forward,
            inverse,
            finder.framed(reference),
            finder.framed(measurement),
        ),
{
    let (r, s) = (finder.taken(reference), finder.taken(measurement));
    assert(reference.take(r).take(r) =~= reference.take(r));
    assert(measurement.take(s).take(s) =~= measurement.take(s));
    assert(finder.framed(finder.framed(reference)) =~= finder.framed(reference));
    assert(finder.framed(finder.framed(measurement)) =~= finder.framed(measurement));
}

/// Whether a correlation is greater at one place than at any other.
pub open spec fn peaks_at(correlation: Seq<F32>, at: int) -> bool {
    &&& 0 <= at < correlation.len()
    &&& forall|i: int|
        0 <= i < correlation.len() && i != at ==> (#[trigger] correlation[i]).total_rank()
            < correlation[at].total_rank()
}

/// A delayed copy of a signal gives that delay, within half a sample: wherever the
/// transforms correlate a signal with its copy at the place that the copy was shifted
/// to. Places in the upper half stand for a measurement that came first, so these give
/// a negative delay and not a large positive one.
pub proof fn lemma_shift_is_the_delay<
    C: Fn(Calc) -> F32,
    F: Fn(&[F32]) -> Vec<Complex>,
    I: Fn(&[Complex]) -> Vec<F32>,
>(
    finder: DelayModel,
    m: Arith<C>,
    forward: Forward<F>,
    inverse: Inverse<I>,
    reference: Seq<F32>,
    measurement: Seq<F32>,
    shift: int,
) -> (offset: F32)
    requires
        finder.sounds(m, reference, measurement),
        ({
            let correlated = correlation(
                m,
                forward,
                inverse,
                finder.weighting,
                finder.framed(reference),
                finder.framed(measurement),
            );
            &&& correlated.len() == finder.size
            &&& -finder.size < 2 * shift <= finder.size
            &&& peaks_at(
                correlated,
                if shift < 0 {
                    finder.size + shift
                } else {
                    shift
                },
            )
        }),
    ensures
        finder.found(m, forward, inverse, reference, measurement) matches Some(estimate) && {
            &&& estimate.seconds == m.over(estimate.samples, finder.sample_rate)
            &&& shift >= 0 ==> estimate.samples == m.plus(m.count(shift as usize), offset)
            &&& shift < 0 ==> estimate.samples == m.minus(
                m.plus(m.count((finder.size + shift) as usize), offset),
                m.count(finder.size as usize),
            )
        },
        !offset.nan() ==> num(peak::MINUS_HALF).at_most(offset) && offset.at_most(num(HALF)),
{
    let correlated = correlation(
        m,
        forward,
        inverse,
        finder.weighting,
        finder.framed(reference),
        finder.framed(measurement),
    );
    let size = finder.size as int;
    let at = if shift < 0 {
        size + shift
    } else {
        shift
    };
    assert(peak::is_last_peak(correlated, at)) by {
        assert forall|i: int| 0 <= i < correlated.len() implies #[trigger] correlated[i].total_rank()
            <= correlated[at].total_rank() by {}
    }
    peak::lemma_last_peak_is_one(correlated, at);
    let (before, here, after) = (
        correlated[place_before(at, size)],
        correlated[at],
        correlated[place_after(at, size)],
    );
    if !parabola_offset(&m, before, here, after).nan() {
        peak::lemma_offset_within_half(&m, before, here, after);
    }
    parabola_offset(&m, before, here, after)
}

/// What a correlation says comes from its highest place, the last of equals, and the two
/// beside that in the circle; confidence is its height over the mean magnitude of all.
pub proof fn lemma_what_a_correlation_says<C: Fn(Calc) -> F32>(
    m: Arith<C>,
    sample_rate: F32,
    correlation: Seq<F32>,
) -> (at: int)
    requires
        0 < correlation.len() <= usize::MAX,
    ensures
        0 <= at < correlation.len(),
        forall|j: int|
            0 <= j < correlation.len() ==> (#[trigger] correlation[j]).total_rank()
                <= correlation[at].total_rank() && (j > at ==> correlation[j].total_rank()
                < correlation[at].total_rank()),
        ({
            let size = correlation.len() as int;
            let estimate = concluded(m, sample_rate, correlation);
            let mean = m.over(
                arith::total(m, Seq::new(correlation.len(), |i: int| correlation[i].spec_abs())),
                m.count(size as usize),
            );
            let offset = parabola_offset(
                &m,
                correlation[(at - 1) % size],
                correlation[at],
                correlation[(at + 1) % size],
            );
            &&& estimate.samples == if 2 * at > size {
                m.minus(m.plus(m.count(at as usize), offset), m.count(size as usize))
            } else {
                m.plus(m.count(at as usize), offset)
            }
            &&& estimate.seconds == m.over(estimate.samples, sample_rate)
            &&& num(ZERO).less(mean) ==> estimate.confidence == m.over(correlation[at], mean)
            &&& !num(ZERO).less(mean) ==> estimate.confidence == num(ZERO)
        }),
{
    let size = correlation.len() as int;
    peak::lemma_there_is_a_last_peak(correlation);
    let at = peak::last_peak(correlation);
    assert(arith::magnitudes(correlation) =~= Seq::new(
        correlation.len(),
        |i: int| correlation[i].spec_abs(),
    ));
    if at == 0 {
        vstd::arithmetic::div_mod::lemma_mod_add_multiples_vanish(-1, size);
        vstd::arithmetic::div_mod::lemma_small_mod((size - 1) as nat, size as nat);
    } else {
        vstd::arithmetic::div_mod::lemma_small_mod((at - 1) as nat, size as nat);
    }
    if at + 1 == size {
        vstd::arithmetic::div_mod::lemma_mod_self_0(size);
    } else {
        vstd::arithmetic::div_mod::lemma_small_mod((at + 1) as nat, size as nat);
    }
    at
}

/// A bin of the cross-spectrum is the measurement's times the conjugate of the
/// reference's. The phase transform takes its magnitude to one, and leaves out a bin
/// that has next to none. Only the ends are made real.
pub proof fn lemma_bin_of_the_cross_spectrum<C: Fn(Calc) -> F32>(
    m: Arith<C>,
    weighting: Weighting,
    x: Seq<Complex>,
    y: Seq<Complex>,
    k: int,
)
    requires
        0 <= k < x.len(),
        y.len() == x.len(),
    ensures
        ({
            let bin = cross_spectrum(m, weighting, x, y)[k];
            let product = m.product(y[k], x[k].conj());
            let whole = if weighting == Weighting::Off {
                product
            } else if num(LEAST_MAGNITUDE).less(m.norm(product)) {
                m.shared(product, m.norm(product))
            } else {
                Complex { re: num(ZERO), im: num(ZERO) }
            };
            &&& bin.re == whole.re
            &&& bin.im == if k == 0 || k == x.len() - 1 {
                num(ZERO)
            } else {
                whole.im
            }
        }),
{
}

/// A signal is silent where the squares of what stands in the window add up to no more
/// than silence does; a signal that sounds is one whose squares add up to more.
pub proof fn lemma_what_counts_as_sound<C: Fn(Calc) -> F32>(
    finder: DelayModel,
    m: Arith<C>,
    reference: Seq<F32>,
    measurement: Seq<F32>,
    first: Seq<F32>,
    second: Seq<F32>,
)
    requires
        reference.len() > 0,
        measurement.len() > 0,
        first.len() == finder.size,
        second.len() == finder.size,
        forall|i: int|
            0 <= i < first.len() ==> #[trigger] first[i] == if i < reference.len() {
                m.times(reference[i], reference[i])
            } else {
                m.times(num(ZERO), num(ZERO))
            },
        forall|i: int|
            0 <= i < second.len() ==> #[trigger] second[i] == if i < measurement.len() {
                m.times(measurement[i], measurement[i])
            } else {
                m.times(num(ZERO), num(ZERO))
            },
    ensures
        finder.sounds(m, reference, measurement) <==> !arith::total(m, first).at_most(num(SILENCE))
            && !arith::total(m, second).at_most(num(SILENCE)),
{
    assert(arith::squares(m, finder.framed(reference)) =~= first);
    assert(arith::squares(m, finder.framed(measurement)) =~= second);
}

} // verus!

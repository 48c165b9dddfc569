//! Recovering an impulse response from a swept measurement.
//!
//! Play a known stimulus, record what comes back, and divide one by the other in
//! the frequency domain. Where the stimulus has no energy the plain quotient
//! explodes, so the division is regularised:
//!
//! ```text
//! H = Y * conj(X) / (|X|^2 + e * max|X|^2)
//! ```

use vstd::prelude::*;

use crate::arith;
use crate::arith::{greatest_of, magnitudes_of, Arith, Calc, Complex};
use crate::dsp::fft;
use crate::dsp::fft::{make_ends_real, origin, pad, Forward, Inverse};
use crate::dsp::peak;
use crate::dsp::peak::{find_last_peak, parabola_offset, LEAST_CURVATURE, MINUS_HALF};
use crate::ieee::F32;
use crate::numbers::{num, HALF, ONE, TWO, ZERO};
use crate::powers;
use crate::powers::next_power_of_two;

verus! {

/// Default regularisation: a millionth. Anything 60 dB below the stimulus peak is
/// treated as noise.
pub const DEFAULT_REGULARISATION: u32 = 0x3586_37BD;

/// A recovered impulse response.
#[derive(Debug, Clone, PartialEq)]
pub struct ImpulseResponse {
    /// The response, at the measurement sample rate.
    pub samples: Vec<F32>,
    /// Index of the direct arrival, fractional.
    pub peak_samples: F32,
    /// Sample rate the measurement ran at.
    pub sample_rate: F32,
}

/// What an impulse response amounts to.
#[verifier::ext_equal]
pub struct ResponseModel {
    pub samples: Seq<F32>,
    pub peak_samples: F32,
    pub sample_rate: F32,
}

impl View for ImpulseResponse {
    type V = ResponseModel;

    open spec fn view(&self) -> ResponseModel {
        ResponseModel {
            samples: self.samples@,
            peak_samples: self.peak_samples,
            sample_rate: self.sample_rate,
        }
    }
}

impl ImpulseResponse {
    /// Time in seconds of sample `index`, relative to the direct arrival.
    pub fn time_at<C: Fn(Calc) -> F32>(&self, m: &Arith<C>, index: usize) -> (time: F32)
        ensures
            time == if self.sample_rate.le(num(ZERO)) {
                num(ZERO)
            } else {
                m.over(m.minus(m.count(index), self.peak_samples), self.sample_rate)
            },
    {
        if self.sample_rate.le(num(ZERO)) {
            return num(ZERO);
        }
        m.over(m.minus(m.count(index), self.peak_samples), self.sample_rate)
    }

    /// Peak absolute amplitude.
    pub fn peak_amplitude(&self) -> (peak: F32)
        ensures
            peak == arith::greatest(arith::magnitudes(self.samples@)),
            forall|i: int|
                0 <= i < self.samples@.len() && !(#[trigger] self.samples@[i]).nan()
                    ==> self.samples@[i].magnitude() <= peak.magnitude(),
            peak == num(ZERO) || exists|i: int|
                0 <= i < self.samples@.len() && (#[trigger] self.samples@[i]).spec_abs() == peak,
    {
        proof {
            lemma_peak_amplitude(self.samples@);
        }
        greatest_of(magnitudes_of(self.samples.as_slice()).as_slice())
    }

    /// Length in seconds.
    pub fn duration_seconds<C: Fn(Calc) -> F32>(&self, m: &Arith<C>) -> (seconds: F32)
        ensures
            seconds == if self.sample_rate.le(num(ZERO)) {
                num(ZERO)
            } else {
                m.over(m.count(self.samples@.len() as usize), self.sample_rate)
            },
    {
        if self.sample_rate.le(num(ZERO)) {
            return num(ZERO);
        }
        m.over(m.count(self.samples.len()), self.sample_rate)
    }
}

/// The powers of a spectrum's bins.
pub open spec fn bin_powers<C: Fn(Calc) -> F32>(m: Arith<C>, spectrum: Seq<Complex>) -> Seq<F32> {
    Seq::new(spectrum.len(), |k: int| m.norm_sqr(spectrum[k]))
}

fn bin_powers_of<C: Fn(Calc) -> F32>(m: &Arith<C>, spectrum: &[Complex]) -> (powers: Vec<F32>)
    ensures
        powers@ == bin_powers(*m, spectrum@),
{
    let mut powers: Vec<F32> = Vec::new();
    let mut k: usize = 0;
    while k < spectrum.len()
        invariant
            k <= spectrum@.len(),
            powers@.len() == k,
            forall|i: int| 0 <= i < k ==> #[trigger] powers@[i] == m.norm_sqr(spectrum@[i]),
        decreases spectrum@.len() - k,
    {
        powers.push(m.norm_sqr(spectrum[k]));
        k = k + 1;
    }
    assert(powers@ =~= bin_powers(*m, spectrum@));
    powers
}

/// Whether no bin of a spectrum carries power.
pub open spec fn silent<C: Fn(Calc) -> F32>(m: Arith<C>, spectrum: Seq<Complex>) -> bool {
    arith::greatest(bin_powers(m, spectrum)).le(num(ZERO))
}

/// Whether no sample of a signal is anything but zero.
pub open spec fn all_zero(signal: Seq<F32>) -> bool {
    forall|i: int| 0 <= i < signal.len() ==> (#[trigger] signal[i]).same(num(ZERO))
}

fn is_all_zero(signal: &[F32]) -> (zero: bool)
    ensures
        zero == all_zero(signal@),
{
    let mut i: usize = 0;
    while i < signal.len()
        invariant
            i <= signal@.len(),
            forall|k: int| 0 <= k < i ==> (#[trigger] signal@[k]).same(num(ZERO)),
        decreases signal@.len() - i,
    {
        if !signal[i].same(num(ZERO)) {
            return false;
        }
        i = i + 1;
    }
    true
}

/// One bin of the regularised quotient. Where the stimulus is weak the denominator
/// floors out and the result rolls gently to zero.
#[verifier::allow_in_spec]
pub fn divided<C: Fn(Calc) -> F32>(m: &Arith<C>, x: Complex, y: Complex, floor: F32) -> Complex
    returns
        (if num(ZERO).lt(m.plus(m.norm_sqr(x), floor)) {
            m.shared(m.product(y, x.conj()), m.plus(m.norm_sqr(x), floor))
        } else {
            origin()
        }),
{
    let denominator = m.plus(m.norm_sqr(x), floor);
    if num(ZERO).lt(denominator) {
        m.shared(m.product(y, x.conj()), denominator)
    } else {
        origin()
    }
}

/// The regularised quotient of two spectra. The floor is relative to the strongest
/// bin, so it means the same thing however loud the measurement was.
pub open spec fn quotient<C: Fn(Calc) -> F32>(
    m: Arith<C>,
    x: Seq<Complex>,
    y: Seq<Complex>,
    regularisation: F32,
) -> Seq<Complex> {
    let floor = m.times(
        regularisation.spec_max(num(ZERO)),
        arith::greatest(bin_powers(m, x)),
    );
    fft::real_ended(Seq::new(x.len(), |k: int| divided(&m, x[k], y[k], floor)))
}

/// Where the direct arrival stands: the largest absolute sample, refined between
/// samples. An impulse response has real ends, so a neighbour beyond them stands at
/// the height of the peak.
pub open spec fn arrival<C: Fn(Calc) -> F32>(m: Arith<C>, samples: Seq<F32>) -> F32 {
    let sizes = arith::magnitudes(samples);
    let at = peak::last_peak(sizes);
    let before = if at > 0 {
        sizes[at - 1]
    } else {
        sizes[at]
    };
    let after = if at + 1 < sizes.len() {
        sizes[at + 1]
    } else {
        sizes[at]
    };
    m.plus(m.count(at as usize), parabola_offset(&m, before, sizes[at], after))
}

/// Index of the largest absolute sample, refined between samples. `None` when there
/// is no sample.
pub fn locate_peak<C: Fn(Calc) -> F32>(m: &Arith<C>, samples: &[F32]) -> (at: Option<F32>)
    ensures
        at == if samples@.len() == 0 {
            None
        } else {
            Some(arrival(*m, samples@))
        },
{
    let sizes = magnitudes_of(samples);
    match find_last_peak(sizes.as_slice()) {
        None => None,
        Some(index) => {
            let peak = sizes[index];
            let before = if index > 0 {
                sizes[index - 1]
            } else {
                peak
            };
            let after = if index < sizes.len() - 1 {
                sizes[index + 1]
            } else {
                peak
            };
            Some(m.plus(m.count(index), parabola_offset(m, before, peak, after)))
        },
    }
}

/// Numbers times one number.
pub open spec fn scaled_by<C: Fn(Calc) -> F32>(m: Arith<C>, numbers: Seq<F32>, by: F32) -> Seq<
    F32,
> {
    Seq::new(numbers.len(), |i: int| m.times(numbers[i], by))
}

/// What a deconvolver is set to.
pub struct DeconvolverModel {
    /// Transform length.
    pub size: nat,
    pub sample_rate: F32,
}

impl DeconvolverModel {
    /// Whether a response can be recovered: neither signal is empty, longer than half
    /// the transform, or silent. A stimulus that no bin shows any power of is as good as
    /// silent, since there is nothing to divide by.
    pub open spec fn recovers<C: Fn(Calc) -> F32, F: Fn(&[F32]) -> Vec<Complex>>(
        self,
        m: Arith<C>,
        forward: Forward<F>,
        stimulus: Seq<F32>,
        response: Seq<F32>,
    ) -> bool {
        &&& 0 < stimulus.len() <= self.size / 2
        &&& 0 < response.len() <= self.size / 2
        &&& !silent(m, forward.of(fft::padded(stimulus, self.size)))
        &&& !all_zero(response)
    }

    /// The recovered samples.
    pub open spec fn recovered<
        C: Fn(Calc) -> F32,
        F: Fn(&[F32]) -> Vec<Complex>,
        I: Fn(&[Complex]) -> Vec<F32>,
    >(
        self,
        m: Arith<C>,
        forward: Forward<F>,
        inverse: Inverse<I>,
        stimulus: Seq<F32>,
        response: Seq<F32>,
        regularisation: F32,
    ) -> Seq<F32> {
        let x = forward.of(fft::padded(stimulus, self.size));
        let y = forward.of(fft::padded(response, self.size));
        scaled_by(
            m,
            inverse.of(quotient(m, x, y, regularisation)),
            m.over(num(ONE), m.count(self.size as usize)),
        )
    }
}

/// Deconvolves a response against a stimulus.
#[derive(Debug)]
pub struct Deconvolver {
    size: usize,
    sample_rate: F32,
}

impl View for Deconvolver {
    type V = DeconvolverModel;

    closed spec fn view(&self) -> DeconvolverModel {
        DeconvolverModel { size: self.size as nat, sample_rate: self.sample_rate }
    }
}

impl Deconvolver {
    pub open spec fn wf(self) -> bool {
        2 <= self@.size <= usize::MAX && self@.size % 2 == 0
    }

    /// Build a deconvolver for signals up to `max_length` samples.
    ///
    /// The transform is sized to the next power of two at or above twice
    /// `max_length`, because circular convolution would otherwise wrap the tail of
    /// the response around onto the start.
    pub fn new(sample_rate: F32, max_length: usize) -> (deconvolver: Deconvolver)
        requires
            0 < max_length,
            max_length * 2 <= usize::MAX / 2 + 1,
            num(ZERO).lt(sample_rate),
        ensures
            deconvolver.wf(),
            deconvolver@.sample_rate == sample_rate,
            powers::is_next_power_of_two(max_length * 2, deconvolver@.size as int),
    {
        let size: usize = next_power_of_two(max_length * 2);
        proof {
            let k = choose|k: nat| #[trigger] vstd::arithmetic::power2::pow2(k) == size;
            vstd::arithmetic::power2::lemma2_to64();
            assert(k > 0);
            vstd::arithmetic::power2::lemma_pow2_unfold(k);
        }
        Deconvolver { size, sample_rate }
    }

    /// Transform length in use.
    pub fn size(&self) -> (size: usize)
        ensures
            size == self@.size,
    {
        self.size
    }

    /// Longest input this deconvolver accepts.
    pub fn max_length(&self) -> (length: usize)
        ensures
            length == self@.size / 2,
    {
        self.size / 2
    }

    /// Recover the impulse response.
    ///
    /// `regularisation` is the assumed noise floor as a fraction of stimulus peak
    /// power. Returns `None` if either signal is empty, silent or longer than
    /// [`Deconvolver::max_length`].
    pub fn deconvolve<
        C: Fn(Calc) -> F32,
        F: Fn(&[F32]) -> Vec<Complex>,
        I: Fn(&[Complex]) -> Vec<F32>,
    >(
        &self,
        m: &Arith<C>,
        forward: &Forward<F>,
        inverse: &Inverse<I>,
        stimulus: &[F32],
        response: &[F32],
        regularisation: F32,
    ) -> (recovered: Option<ImpulseResponse>)
        requires
            self.wf(),
        ensures
            recovered is Some <==> self@.recovers(*m, *forward, stimulus@, response@),
            recovered matches Some(ir) ==> ir@ == ({
                let samples = self@.recovered(
                    *m,
                    *forward,
                    *inverse,
                    stimulus@,
                    response@,
                    regularisation,
                );
                ResponseModel {
                    samples,
                    peak_samples: arrival(*m, samples),
                    sample_rate: self@.sample_rate,
                }
            }) && ir.samples@.len() == self@.size,
    {
        if stimulus.len() == 0 || response.len() == 0 {
            return None;
        }
        if stimulus.len() > self.max_length() || response.len() > self.max_length() {
            return None;
        }
        if is_all_zero(response) {
            return None;
        }
        assert(stimulus@.take(stimulus@.len() as int) =~= stimulus@);
        assert(response@.take(response@.len() as int) =~= response@);
        let x = forward.transform(pad(stimulus, stimulus.len(), self.size).as_slice());
        let y = forward.transform(pad(response, response.len(), self.size).as_slice());

        let peak_power = greatest_of(bin_powers_of(m, x.as_slice()).as_slice());
        if peak_power.le(num(ZERO)) {
            return None;
        }
        let floor = m.times(regularisation.max(num(ZERO)), peak_power);

        let bins: usize = x.len();
        let mut ratio: Vec<Complex> = Vec::new();
        let mut k: usize = 0;
        while k < bins
            invariant
                k <= bins,
                bins == x@.len(),
                bins == y@.len(),
                ratio@.len() == k,
                forall|i: int|
                    0 <= i < k ==> #[trigger] ratio@[i] == divided(m, x@[i], y@[i], floor),
            decreases bins - k,
        {
            ratio.push(divided(m, x[k], y[k], floor));
            k = k + 1;
        }
        assert(ratio@ =~= Seq::new(x@.len(), |k: int| divided(m, x@[k], y@[k], floor)));
        make_ends_real(&mut ratio);
        let unscaled = inverse.transform(ratio.as_slice());

        // The inverse transform is unnormalised.
        let scale = m.over(num(ONE), m.count(self.size));
        let mut samples: Vec<F32> = Vec::new();
        let mut i: usize = 0;
        while i < unscaled.len()
            invariant
                i <= unscaled@.len(),
                samples@.len() == i,
                forall|j: int|
                    0 <= j < i ==> #[trigger] samples@[j] == m.times(unscaled@[j], scale),
            decreases unscaled@.len() - i,
        {
            samples.push(m.times(unscaled[i], scale));
            i = i + 1;
        }
        assert(samples@ =~= scaled_by(*m, unscaled@, scale));
        match locate_peak(m, samples.as_slice()) {
            None => None,
            Some(peak_samples) => Some(
                ImpulseResponse { samples, peak_samples, sample_rate: self.sample_rate },
            ),
        }
    }
}

/// The direct arrival lies within half a sample of the sample that is furthest from
/// zero, whichever its sign, and of the last of those that are equally far: where a
/// parabola through that sample's magnitude and those beside it is highest.
pub proof fn lemma_arrival_is_at_the_largest_sample<C: Fn(Calc) -> F32>(
    m: Arith<C>,
    samples: Seq<F32>,
) -> (found: (int, F32))
    requires
        samples.len() > 0,
    ensures
        ({
            let (at, offset) = found;
            let before = samples[if at > 0 {
                at - 1
            } else {
                at
            }].spec_abs();
            let after = samples[if at + 1 < samples.len() {
                at + 1
            } else {
                at
            }].spec_abs();
            let bend = m.plus(m.minus(before, m.times(num(TWO), samples[at].spec_abs())), after);
            &&& 0 <= at < samples.len()
            &&& forall|j: int|
                0 <= j < samples.len() ==> (#[trigger] samples[j]).magnitude()
                    <= samples[at].magnitude()
            &&& forall|j: int|
                at < j < samples.len() ==> (#[trigger] samples[j]).magnitude()
                    < samples[at].magnitude()
            &&& arrival(m, samples) == m.plus(m.count(at as usize), offset)
            &&& offset.nan() || (num(MINUS_HALF).at_most(offset) && offset.at_most(num(HALF)))
            &&& !num(LEAST_CURVATURE).less(bend.spec_abs()) ==> offset == num(ZERO)
            &&& num(LEAST_CURVATURE).less(bend.spec_abs()) ==> offset == m.over(
                m.times(num(HALF), m.minus(before, after)),
                bend,
            ).spec_clamp(num(MINUS_HALF), num(HALF))
        }),
{
    let sizes = arith::magnitudes(samples);
    peak::lemma_there_is_a_last_peak(sizes);
    let at = peak::last_peak(sizes);
    let before = if at > 0 {
        sizes[at - 1]
    } else {
        sizes[at]
    };
    let after = if at + 1 < sizes.len() {
        sizes[at + 1]
    } else {
        sizes[at]
    };
    let offset = parabola_offset(&m, before, sizes[at], after);
    if !offset.nan() {
        peak::lemma_offset_within_half(&m, before, sizes[at], after);
    }
    assert forall|j: int| 0 <= j < samples.len() implies (#[trigger] samples[j]).magnitude()
        <= samples[at].magnitude() && (at < j ==> samples[j].magnitude()
        < samples[at].magnitude()) by {
        assert(sizes[j] == samples[j].spec_abs());
        assert(sizes[j].total_rank() <= sizes[at].total_rank());
        lemma_magnitude_of_abs(samples[j]);
        lemma_magnitude_of_abs(samples[at]);
    }
    (at, offset)
}

proof fn lemma_magnitude_of_abs(a: F32)
    ensures
        a.spec_abs().magnitude() == a.magnitude(),
        !a.spec_abs().negative(),
        a.spec_negated().spec_abs() == a.spec_abs(),
{
}

/// No sample is further from zero than the peak amplitude, and one is as far.
proof fn lemma_peak_amplitude(samples: Seq<F32>)
    ensures
        ({
            let peak = arith::greatest(arith::magnitudes(samples));
            &&& forall|i: int|
                0 <= i < samples.len() && !(#[trigger] samples[i]).nan()
                    ==> samples[i].magnitude() <= peak.magnitude()
            &&& peak == num(ZERO) || exists|i: int|
                0 <= i < samples.len() && (#[trigger] samples[i]).spec_abs() == peak
        }),
{
    let sizes = arith::magnitudes(samples);
    let peak = arith::greatest(sizes);
    arith::lemma_greatest_is_the_greatest(sizes);
    assert forall|i: int| 0 <= i < samples.len() && !(#[trigger] samples[i]).nan() implies
        samples[i].magnitude() <= peak.magnitude() by {
        lemma_magnitude_of_abs(samples[i]);
        assert(!sizes[i].nan());
        assert(sizes[i].at_most(peak));
    }
    if peak != num(ZERO) {
        let i = choose|i: int| 0 <= i < sizes.len() && #[trigger] sizes[i] == peak;
        assert(samples[i].spec_abs() == peak);
    }
}

/// The sign of a response does not move its arrival.
pub proof fn lemma_arrival_of_the_negated<C: Fn(Calc) -> F32>(
    m: Arith<C>,
    samples: Seq<F32>,
    negated: Seq<F32>,
)
    requires
        negated.len() == samples.len(),
        forall|i: int|
            0 <= i < samples.len() ==> #[trigger] negated[i] == samples[i].spec_negated(),
    ensures
        arrival(m, negated) == arrival(m, samples),
{
    assert forall|i: int| 0 <= i < samples.len() implies #[trigger] negated[i].spec_abs()
        == samples[i].spec_abs() by {
        lemma_magnitude_of_abs(samples[i]);
    }
    assert(arith::magnitudes(negated) =~= arith::magnitudes(samples));
}

/// What a bin of the quotient is: the response times the conjugate of the stimulus, over
/// the stimulus' power with a share of the strongest bin's power added. The share is
/// never negative, and no bin is stronger than the strongest. Only the ends are made
/// real.
pub proof fn lemma_bin_of_the_quotient<C: Fn(Calc) -> F32>(
    m: Arith<C>,
    x: Seq<Complex>,
    y: Seq<Complex>,
    regularisation: F32,
    k: int,
) -> (found: (F32, F32))
    requires
        0 <= k < x.len(),
        y.len() == x.len(),
    ensures
        ({
            let (strongest, share) = found;
            let below = m.plus(m.norm_sqr(x[k]), m.times(share, strongest));
            let bin = quotient(m, x, y, regularisation)[k];
            let whole = if num(ZERO).less(below) {
                m.shared(m.product(y[k], x[k].conj()), below)
            } else {
                Complex { re: num(ZERO), im: num(ZERO) }
            };
            &&& num(ZERO).less(regularisation) ==> share == regularisation
            &&& num(ZERO).at_most(share)
            &&& (regularisation.nan() || regularisation.at_most(num(ZERO))) ==> share.same(
                num(ZERO),
            )
            &&& num(ZERO).at_most(strongest)
            &&& forall|j: int|
                0 <= j < x.len() && !(#[trigger] m.norm_sqr(x[j])).nan() ==> m.norm_sqr(
                    x[j],
                ).at_most(strongest)
            &&& strongest == num(ZERO) || exists|j: int|
                0 <= j < x.len() && #[trigger] m.norm_sqr(x[j]) == strongest
            &&& bin.re == whole.re
            &&& bin.im == if k == 0 || k == x.len() - 1 {
                num(ZERO)
            } else {
                whole.im
            }
        }),
{
    let powers = bin_powers(m, x);
    arith::lemma_greatest_is_the_greatest(powers);
    let strongest = arith::greatest(powers);
    assert forall|j: int| 0 <= j < x.len() && !(#[trigger] m.norm_sqr(x[j])).nan() implies
        m.norm_sqr(x[j]).at_most(strongest) by {
        assert(powers[j] == m.norm_sqr(x[j]));
    }
    if strongest != num(ZERO) {
        let j = choose|j: int| 0 <= j < powers.len() && #[trigger] powers[j] == strongest;
        assert(m.norm_sqr(x[j]) == strongest);
    }
    (strongest, regularisation.spec_max(num(ZERO)))
}

/// The samples that are recovered are those of the inverse transform of the quotient,
/// each shared by the length of the transform, and both signals are padded with zeros
/// to that length.
pub proof fn lemma_recovered_samples<
    C: Fn(Calc) -> F32,
    F: Fn(&[F32]) -> Vec<Complex>,
    I: Fn(&[Complex]) -> Vec<F32>,
>(
    model: DeconvolverModel,
    m: Arith<C>,
    forward: Forward<F>,
    inverse: Inverse<I>,
    stimulus: Seq<F32>,
    response: Seq<F32>,
    regularisation: F32,
    stimulus_padded: Seq<F32>,
    response_padded: Seq<F32>,
    i: int,
)
    requires
        stimulus_padded.len() == model.size,
        response_padded.len() == model.size,
        stimulus.len() <= model.size,
        response.len() <= model.size,
        forall|k: int|
            0 <= k < model.size ==> #[trigger] stimulus_padded[k] == if k < stimulus.len() {
                stimulus[k]
            } else {
                num(ZERO)
            },
        forall|k: int|
            0 <= k < model.size ==> #[trigger] response_padded[k] == if k < response.len() {
                response[k]
            } else {
                num(ZERO)
            },
        0 <= i < model.recovered(m, forward, inverse, stimulus, response, regularisation).len(),
    ensures
        model.recovered(m, forward, inverse, stimulus, response, regularisation)[i] == m.times(
            inverse.of(
                quotient(
                    m,
                    forward.of(stimulus_padded),
                    forward.of(response_padded),
                    regularisation,
                ),
            )[i],
            m.over(num(ONE), m.count(model.size as usize)),
        ),
{
    assert(fft::padded(stimulus, model.size) =~= stimulus_padded);
    assert(fft::padded(response, model.size) =~= response_padded);
}

/// A response is recovered exactly where both signals have samples and fit in half of the
/// transform, some sample of the response is not zero, and some bin of the stimulus has
/// power.
pub proof fn lemma_when_a_response_is_recovered<
    C: Fn(Calc) -> F32,
    F: Fn(&[F32]) -> Vec<Complex>,
>(
    model: DeconvolverModel,
    m: Arith<C>,
    forward: Forward<F>,
    stimulus: Seq<F32>,
    response: Seq<F32>,
)
    ensures
        ({
            let x = forward.of(fft::padded(stimulus, model.size));
            model.recovers(m, forward, stimulus, response) <==> {
                &&& 0 < stimulus.len() && 2 * stimulus.len() <= model.size
                &&& 0 < response.len() && 2 * response.len() <= model.size
                &&& exists|i: int|
                    0 <= i < response.len() && ((#[trigger] response[i]).nan()
                        || response[i].magnitude() != 0)
                &&& exists|k: int|
                    0 <= k < x.len() && num(ZERO).less(#[trigger] m.norm_sqr(x[k]))
            }
        }),
{
    let x = forward.of(fft::padded(stimulus, model.size));
    let powers = bin_powers(m, x);
    arith::lemma_greatest_is_the_greatest(powers);
    let most = arith::greatest(powers);
    if num(ZERO).less(most) {
        let k = choose|k: int| 0 <= k < powers.len() && #[trigger] powers[k] == most;
        assert(num(ZERO).less(m.norm_sqr(x[k])));
    }
    if exists|k: int| 0 <= k < x.len() && num(ZERO).less(#[trigger] m.norm_sqr(x[k])) {
        let k = choose|k: int| 0 <= k < x.len() && num(ZERO).less(#[trigger] m.norm_sqr(x[k]));
        assert(powers[k] == m.norm_sqr(x[k]));
        assert(powers[k].at_most(most));
    }
    if !all_zero(response) {
        let i = choose|i: int| 0 <= i < response.len() && !(#[trigger] response[i]).same(num(ZERO));
        assert(response[i].nan() || response[i].magnitude() != 0);
    } else {
        assert forall|i: int| 0 <= i < response.len() implies !((#[trigger] response[i]).nan()
            || response[i].magnitude() != 0) by {
            assert(response[i].same(num(ZERO)));
        }
    }
}

} // verus!

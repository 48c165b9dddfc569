//! Getting answers out of an impulse response: gating, frequency response and
//! reverberation time.
//!
//! A gate keeps the direct sound and drops the reflections, and its price is fixed
//! by physics: a gate of length `T` cannot resolve anything finer than `1/T`. That
//! limit is reported along with the response.

use vstd::prelude::*;

use crate::arith;
use crate::arith::{Arith, Calc, Complex, Wide, WideArith};
use crate::choice;
use crate::dsp::deconv::{ImpulseResponse, ResponseModel};
use crate::dsp::fft;
use crate::dsp::fft::{pad, Forward};
use crate::dsp::window::{Window, WindowKind};
use crate::ieee;
use crate::ieee::{F32, F64};
use crate::numbers::{num, wide, HALF, ONE, PI, TEN, TWENTY, TWO, ZERO};

verus! {

/// Floor for decibel output.
pub const IR_FLOOR_DB: u32 = 0xC348_0000;

/// A number beyond every other.
pub const INFINITY: u32 = 0x7F80_0000;

/// The largest number and its negative.
pub const LARGEST: u32 = 0x7F7F_FFFF;

pub const MINUS_LARGEST: u32 = 0xFF7F_FFFF;

/// A millisecond before the arrival.
pub const LEAD_SECONDS: u32 = 0xBA83_126F;

/// The longest taper that a quasi-anechoic gate gets, two milliseconds.
pub const LONGEST_FADE_SECONDS: u32 = 0x3B03_126F;

/// One quarter.
pub const QUARTER: u32 = 0x3E80_0000;

/// A time window applied to an impulse response, in seconds relative to the direct
/// arrival.
#[derive(Debug, Clone, Copy, PartialEq, Eq, Structural)]
pub struct Gate {
    /// Where it opens. Usually slightly negative, to keep the leading edge of
    /// the direct arrival.
    pub start_seconds: F32,
    /// Where it closes.
    pub end_seconds: F32,
    /// Length of the taper at the closing edge. A hard cut smears the response.
    pub fade_seconds: F32,
}

impl Gate {
    /// A quasi-anechoic gate: the direct sound only, out to `end_seconds`.
    #[verifier::allow_in_spec]
    pub fn anechoic<C: Fn(Calc) -> F32>(m: &Arith<C>, end_seconds: F32) -> Gate
        returns
            (Gate {
                start_seconds: num(LEAD_SECONDS),
                end_seconds,
                fade_seconds: m.times(end_seconds, num(QUARTER)).min(num(LONGEST_FADE_SECONDS)),
            }),
    {
        Gate {
            start_seconds: num(LEAD_SECONDS),
            end_seconds,
            fade_seconds: m.times(end_seconds, num(QUARTER)).min(num(LONGEST_FADE_SECONDS)),
        }
    }

    /// Gate length in seconds.
    #[verifier::allow_in_spec]
    pub fn length_seconds<C: Fn(Calc) -> F32>(&self, m: &Arith<C>) -> F32
        returns
            m.minus(self.end_seconds, self.start_seconds).max(num(ZERO)),
    {
        m.minus(self.end_seconds, self.start_seconds).max(num(ZERO))
    }

    /// The finest frequency resolution this gate permits.
    #[verifier::allow_in_spec]
    pub fn resolution_hz<C: Fn(Calc) -> F32>(&self, m: &Arith<C>) -> F32
        returns
            (if num(ZERO).lt(self.length_seconds(m)) {
                m.over(num(ONE), self.length_seconds(m))
            } else {
                num(INFINITY)
            }),
    {
        let length = self.length_seconds(m);
        if num(ZERO).lt(length) {
            m.over(num(ONE), length)
        } else {
            num(INFINITY)
        }
    }
}

/// A frequency response derived from a gated impulse response.
#[derive(Debug, Clone, PartialEq)]
pub struct GatedResponse {
    /// Magnitude per bin in decibels.
    pub magnitude_db: Vec<F32>,
    /// Phase per bin in degrees.
    pub phase_degrees: Vec<F32>,
    /// Hertz between bins.
    pub bin_spacing_hz: F32,
    /// Finest frequency that could be resolved. Anything below this is an artefact
    /// of gating.
    pub resolution_hz: F32,
}

impl GatedResponse {
    /// Centre frequency of bin `index`.
    pub fn bin_frequency<C: Fn(Calc) -> F32>(&self, m: &Arith<C>, index: usize) -> (hz: F32)
        ensures
            hz == m.times(m.count(index), self.bin_spacing_hz),
    {
        m.times(m.count(index), self.bin_spacing_hz)
    }

    /// Whether a frequency is above its resolution limit and therefore worth
    /// believing.
    pub fn is_trustworthy(&self, hz: F32) -> (trustworthy: bool)
        ensures
            trustworthy == self.resolution_hz.at_most(hz),
    {
        self.resolution_hz.le(hz)
    }
}

/// The sample a time relative to the arrival falls on, the first one for times
/// before it.
pub open spec fn index_at<C: Fn(Calc) -> F32>(m: Arith<C>, ir: ResponseModel, seconds: F32) -> int {
    ieee::saturated(
        m.plus(ir.peak_samples, m.times(seconds, ir.sample_rate)).round_int(),
        usize::MAX as int,
    )
}

/// Where gating ends, at the end of the response at the latest.
pub open spec fn gate_end<C: Fn(Calc) -> F32>(m: Arith<C>, ir: ResponseModel, gate: Gate) -> int {
    let end = index_at(m, ir, gate.end_seconds);
    if end <= ir.samples.len() {
        end
    } else {
        ir.samples.len() as int
    }
}

/// The stretch of a response that a gate keeps.
pub open spec fn kept<C: Fn(Calc) -> F32>(m: Arith<C>, ir: ResponseModel, gate: Gate) -> Seq<F32> {
    let start = index_at(m, ir, gate.start_seconds);
    let end = gate_end(m, ir, gate);
    if ir.sample_rate.le(num(ZERO)) || start >= end {
        Seq::empty()
    } else {
        ir.samples.subrange(start, end)
    }
}

/// How many samples at the end of `len` are tapered.
pub open spec fn fade_length<C: Fn(Calc) -> F32>(
    m: Arith<C>,
    ir: ResponseModel,
    gate: Gate,
    len: int,
) -> int {
    let fade = ieee::saturated(
        m.times(gate.fade_seconds, ir.sample_rate).floor_int(),
        usize::MAX as int,
    );
    if fade <= len {
        fade
    } else {
        len
    }
}

/// The taper at `offset` of `fade` samples, half a cosine: unity at the start of the
/// fade, zero at the end.
#[verifier::allow_in_spec]
pub fn taper<C: Fn(Calc) -> F32>(m: &Arith<C>, offset: usize, fade: usize) -> F32
    requires
        fade > 1,
    returns
        m.times(
            num(HALF),
            m.plus(
                num(ONE),
                m.cosine(
                    m.times(num(PI), m.over(m.count(offset), m.count((fade - 1) as usize))),
                ),
            ),
        ),
{
    let t = m.over(m.count(offset), m.count(fade - 1));
    m.times(num(HALF), m.plus(num(ONE), m.cosine(m.times(num(PI), t))))
}

/// The stretch of a response that a gate keeps, tapered at its end only: the opening
/// edge sits in silence before the arrival.
pub open spec fn gated<C: Fn(Calc) -> F32>(m: Arith<C>, ir: ResponseModel, gate: Gate) -> Seq<F32> {
    let samples = kept(m, ir, gate);
    let fade = fade_length(m, ir, gate, samples.len() as int);
    Seq::new(
        samples.len(),
        |i: int|
            if fade > 1 && i >= samples.len() - fade {
                m.times(
                    samples[i],
                    taper(&m, (i - (samples.len() - fade)) as usize, fade as usize),
                )
            } else {
                samples[i]
            },
    )
}

/// Apply a gate to an impulse response.
///
/// The result is the gated region only, so a caller can see how many samples
/// survived.
pub fn apply_gate<C: Fn(Calc) -> F32>(m: &Arith<C>, ir: &ImpulseResponse, gate: &Gate) -> (out: Vec<
    F32,
>)
    ensures
        out@ == gated(*m, ir@, *gate),
{
    let ghost samples = kept(*m, ir@, *gate);
    if ir.sample_rate.le(num(ZERO)) {
        assert(gated(*m, ir@, *gate) =~= Seq::empty());
        return Vec::new();
    }
    let start: usize = m.plus(
        ir.peak_samples,
        m.times(gate.start_seconds, ir.sample_rate),
    ).round_to_usize();
    let mut end: usize = m.plus(
        ir.peak_samples,
        m.times(gate.end_seconds, ir.sample_rate),
    ).round_to_usize();
    if end > ir.samples.len() {
        end = ir.samples.len();
    }
    if start >= end {
        assert(gated(*m, ir@, *gate) =~= Seq::empty());
        return Vec::new();
    }
    let n: usize = end - start;
    let mut fade: usize = m.times(gate.fade_seconds, ir.sample_rate).floor_to_usize();
    if fade > n {
        fade = n;
    }
    let mut out: Vec<F32> = Vec::new();
    let mut i: usize = 0;
    while i < n
        invariant
            i <= n,
            n == end - start,
            start <= end <= ir.samples@.len(),
            samples == ir.samples@.subrange(start as int, end as int),
            samples == kept(*m, ir@, *gate),
            fade == fade_length(*m, ir@, *gate, n as int),
            fade <= n,
            out@.len() == i,
            forall|k: int| 0 <= k < i ==> #[trigger] out@[k] == gated(*m, ir@, *gate)[k],
        decreases n - i,
    {
        let sample = ir.samples[start + i];
        if fade > 1 && i >= n - fade {
            out.push(m.times(sample, taper(m, i - (n - fade), fade)));
        } else {
            out.push(sample);
        }
        i = i + 1;
    }
    assert(out@ =~= gated(*m, ir@, *gate));
    out
}

/// The magnitude level of a bin, never under the floor.
#[verifier::allow_in_spec]
pub fn bin_db<C: Fn(Calc) -> F32>(m: &Arith<C>, bin: Complex) -> F32
    returns
        (if num(ZERO).lt(m.norm(bin)) {
            m.times(num(TWENTY), m.log10(m.norm(bin))).max(num(IR_FLOOR_DB))
        } else {
            num(IR_FLOOR_DB)
        }),
{
    let magnitude = m.norm(bin);
    if num(ZERO).lt(magnitude) {
        m.times(num(TWENTY), m.log10(magnitude)).max(num(IR_FLOOR_DB))
    } else {
        num(IR_FLOOR_DB)
    }
}

/// No bin's level lies below the floor.
pub proof fn lemma_level_above_floor<C: Fn(Calc) -> F32>(m: Arith<C>, bin: Complex)
    ensures
        num(IR_FLOOR_DB).at_most(bin_db(&m, bin)),
{
}

/// The frame that a gated response is transformed in: cut or padded with zeros.
pub open spec fn gated_frame<C: Fn(Calc) -> F32>(
    m: Arith<C>,
    ir: ResponseModel,
    gate: Gate,
    fft_size: usize,
) -> Seq<F32> {
    let samples = gated(m, ir, gate);
    if samples.len() <= fft_size {
        fft::padded(samples, fft_size as nat)
    } else {
        samples.take(fft_size as int)
    }
}

/// Compute the frequency response of a gated impulse response.
///
/// Padding to `fft_size` interpolates the displayed curve without adding
/// information: the real resolution is still set by gating. Returns `None` if no
/// sample is kept or `fft_size` is unusable.
pub fn gated_response<C: Fn(Calc) -> F32, F: Fn(&[F32]) -> Vec<Complex>>(
    m: &Arith<C>,
    forward: &Forward<F>,
    ir: &ImpulseResponse,
    gate: &Gate,
    fft_size: usize,
) -> (response: Option<GatedResponse>)
    ensures
        response is Some <==> fft_size >= 2 && fft_size % 2 == 0 && gated(*m, ir@, *gate).len() > 0,
        response matches Some(r) ==> {
            let spectrum = forward.of(gated_frame(*m, ir@, *gate, fft_size));
            &&& spectrum.len() == fft_size / 2 + 1
            &&& r.magnitude_db@ == Seq::new(spectrum.len(), |k: int| bin_db(m, spectrum[k]))
            &&& r.phase_degrees@ == Seq::new(
                spectrum.len(),
                |k: int| m.degrees(m.arg(spectrum[k])),
            )
            &&& r.bin_spacing_hz == m.over(ir.sample_rate, m.count(fft_size))
            &&& r.resolution_hz == gate.resolution_hz(m)
        },
{
    if fft_size < 2 || fft_size % 2 != 0 {
        return None;
    }
    let samples = apply_gate(m, ir, gate);
    if samples.len() == 0 {
        return None;
    }
    let take: usize = if samples.len() <= fft_size {
        samples.len()
    } else {
        fft_size
    };
    let frame = pad(samples.as_slice(), take, fft_size);
    assert(frame@ =~= gated_frame(*m, ir@, *gate, fft_size));
    let spectrum = forward.transform(frame.as_slice());
    let mut magnitude_db: Vec<F32> = Vec::new();
    let mut phase_degrees: Vec<F32> = Vec::new();
    let mut k: usize = 0;
    while k < spectrum.len()
        invariant
            k <= spectrum@.len(),
            magnitude_db@.len() == k,
            phase_degrees@.len() == k,
            forall|i: int| 0 <= i < k ==> #[trigger] magnitude_db@[i] == bin_db(m, spectrum@[i]),
            forall|i: int|
                0 <= i < k ==> #[trigger] phase_degrees@[i] == m.degrees(m.arg(spectrum@[i])),
        decreases spectrum@.len() - k,
    {
        magnitude_db.push(bin_db(m, spectrum[k]));
        phase_degrees.push(m.degrees(m.arg(spectrum[k])));
        k = k + 1;
    }
    assert(magnitude_db@ =~= Seq::new(spectrum@.len(), |k: int| bin_db(m, spectrum@[k])));
    assert(phase_degrees@ =~= Seq::new(
        spectrum@.len(),
        |k: int| m.degrees(m.arg(spectrum@[k])),
    ));
    Some(
        GatedResponse {
            magnitude_db,
            phase_degrees,
            bin_spacing_hz: m.over(ir.sample_rate, m.count(fft_size)),
            resolution_hz: gate.resolution_hz(m),
        },
    )
}

/// The samples from the direct arrival on.
pub open spec fn tail_of(ir: ResponseModel) -> Seq<F32> {
    let start = ieee::saturated(
        ir.peak_samples.spec_max(num(ZERO)).floor_int(),
        usize::MAX as int,
    );
    if start <= ir.samples.len() {
        ir.samples.skip(start)
    } else {
        Seq::empty()
    }
}

/// The energy from sample `i` to the end, integrated backwards.
pub open spec fn energy_from<W: Fn(Wide) -> F64>(w: WideArith<W>, tail: Seq<F32>, i: int) -> F64
    decreases tail.len() - i,
{
    if i >= tail.len() {
        wide(0)
    } else {
        w.plus(
            energy_from(w, tail, i + 1),
            w.times(w.widen(tail[i]), w.widen(tail[i])),
        )
    }
}

/// A share of the whole energy in decibels.
#[verifier::allow_in_spec]
pub fn decay_level<C: Fn(Calc) -> F32>(m: &Arith<C>, value: F32, whole: F32) -> F32
    returns
        (if !whole.le(num(ZERO)) && num(ZERO).lt(value) {
            m.times(num(TEN), m.log10(m.over(value, whole))).max(num(IR_FLOOR_DB))
        } else {
            num(IR_FLOOR_DB)
        }),
{
    if !whole.le(num(ZERO)) && num(ZERO).lt(value) {
        m.times(num(TEN), m.log10(m.over(value, whole))).max(num(IR_FLOOR_DB))
    } else {
        num(IR_FLOOR_DB)
    }
}

/// The energy decay curve of a tail, in decibels relative to its start.
pub open spec fn decay_curve<C: Fn(Calc) -> F32, W: Fn(Wide) -> F64>(
    m: Arith<C>,
    w: WideArith<W>,
    tail: Seq<F32>,
) -> Seq<F32> {
    let whole = m.narrow(energy_from(w, tail, 0));
    Seq::new(tail.len(), |i: int| decay_level(&m, m.narrow(energy_from(w, tail, i)), whole))
}

/// Schroeder backward integration: the energy decay curve, in decibels.
///
/// The raw squared response is far too noisy to fit a line to; its integral
/// backwards from the end is smooth, and its slope is the decay rate.
pub fn schroeder_decay<C: Fn(Calc) -> F32, W: Fn(Wide) -> F64>(
    m: &Arith<C>,
    w: &WideArith<W>,
    ir: &ImpulseResponse,
) -> (curve: Vec<F32>)
    ensures
        curve@ == decay_curve(*m, *w, tail_of(ir@)),
{
    let start: usize = ir.peak_samples.max(num(ZERO)).floor_to_usize();
    let ghost tail = tail_of(ir@);
    if start >= ir.samples.len() {
        assert(tail =~= Seq::empty());
        assert(decay_curve(*m, *w, tail) =~= Seq::empty());
        return Vec::new();
    }
    let len: usize = ir.samples.len();
    let n: usize = len - start;
    let mut curve: Vec<F32> = vec![num(ZERO); n];
    let mut running = wide(0);
    let mut i: usize = n;
    while i > 0
        invariant
            i <= n,
            n == tail.len(),
            n == curve@.len(),
            start + n == len,
            len == ir.samples@.len(),
            tail == ir.samples@.skip(start as int),
            running == energy_from(*w, tail, i as int),
            forall|k: int|
                i <= k < n ==> #[trigger] curve@[k] == m.narrow(energy_from(*w, tail, k)),
        decreases i,
    {
        i = i - 1;
        let sample = w.widen(ir.samples[start + i]);
        running = w.plus(running, w.times(sample, sample));
        curve.set(i, m.narrow(running));
    }
    let whole = curve[0];
    let mut k: usize = 0;
    while k < n
        invariant
            k <= n,
            n == tail.len(),
            n == curve@.len(),
            whole == m.narrow(energy_from(*w, tail, 0)),
            forall|i: int|
                k <= i < n ==> #[trigger] curve@[i] == m.narrow(energy_from(*w, tail, i)),
            forall|i: int|
                0 <= i < k ==> #[trigger] curve@[i] == decay_level(
                    m,
                    m.narrow(energy_from(*w, tail, i)),
                    whole,
                ),
        decreases n - k,
    {
        let value = curve[k];
        curve.set(k, decay_level(m, value, whole));
        k = k + 1;
    }
    assert(curve@ =~= decay_curve(*m, *w, tail));
    curve
}

/// No point of a decay curve lies below the floor.
pub proof fn lemma_decay_above_floor<C: Fn(Calc) -> F32, W: Fn(Wide) -> F64>(
    m: Arith<C>,
    w: WideArith<W>,
    tail: Seq<F32>,
    i: int,
)
    requires
        0 <= i < tail.len(),
    ensures
        num(IR_FLOOR_DB).at_most(decay_curve(m, w, tail)[i]),
{
}

/// Reverberation time, estimated three ways.
///
/// All three are extrapolations to a decay of sixty decibels. They are reported
/// separately: when they disagree, that disagreement is the finding.
#[derive(Debug, Clone, Copy, PartialEq, Eq)]
pub struct ReverbTime {
    /// Early decay time, from the first 10 dB.
    pub edt: Option<F32>,
    /// From the -5 to -25 dB span, extrapolated by three.
    pub t20: Option<F32>,
    /// From the -5 to -35 dB span, extrapolated by two.
    pub t30: Option<F32>,
}

impl Default for ReverbTime {
    fn default() -> (time: ReverbTime)
        ensures
            time == (ReverbTime { edt: None, t20: None, t30: None }),
    {
        ReverbTime { edt: None, t20: None, t30: None }
    }
}

/// The estimates there are.
pub open spec fn estimates(time: ReverbTime) -> Seq<F32> {
    let first = match time.edt {
        Some(edt) => seq![edt],
        None => Seq::empty(),
    };
    let second = match time.t20 {
        Some(t20) => first.push(t20),
        None => first,
    };
    match time.t30 {
        Some(t30) => second.push(t30),
        None => second,
    }
}

/// The greatest of numbers, from the largest negative one up.
pub open spec fn longest(values: Seq<F32>) -> F32
    decreases values.len(),
{
    if values.len() == 0 {
        num(MINUS_LARGEST)
    } else {
        longest(values.drop_last()).spec_max(values.last())
    }
}

/// The least of numbers, from the largest one down.
pub open spec fn shortest(values: Seq<F32>) -> F32
    decreases values.len(),
{
    if values.len() == 0 {
        num(LARGEST)
    } else {
        shortest(values.drop_last()).spec_min(values.last())
    }
}

impl ReverbTime {
    /// The best available estimate, preferring the longest usable span.
    pub fn best(&self) -> (seconds: Option<F32>)
        ensures
            seconds == if self.t30 is Some {
                self.t30
            } else if self.t20 is Some {
                self.t20
            } else {
                self.edt
            },
    {
        match self.t30 {
            Some(t30) => Some(t30),
            None => match self.t20 {
                Some(t20) => Some(t20),
                None => self.edt,
            },
        }
    }

    /// How far the estimates disagree, as a fraction of the largest.
    pub fn spread<C: Fn(Calc) -> F32>(&self, m: &Arith<C>) -> (spread: Option<F32>)
        ensures
            spread == {
                let values = estimates(*self);
                if values.len() >= 2 && num(ZERO).lt(longest(values)) {
                    Some(m.over(m.minus(longest(values), shortest(values)), longest(values)))
                } else {
                    None
                }
            },
    {
        let mut values: Vec<F32> = Vec::new();
        if let Some(edt) = self.edt {
            values.push(edt);
        }
        if let Some(t20) = self.t20 {
            values.push(t20);
        }
        if let Some(t30) = self.t30 {
            values.push(t30);
        }
        assert(values@ =~= estimates(*self));
        if values.len() < 2 {
            return None;
        }
        let mut most = num(MINUS_LARGEST);
        let mut least = num(LARGEST);
        let mut i: usize = 0;
        assert(values@.take(0) =~= Seq::<F32>::empty());
        while i < values.len()
            invariant
                i <= values@.len(),
                most == longest(values@.take(i as int)),
                least == shortest(values@.take(i as int)),
            decreases values@.len() - i,
        {
            most = most.max(values[i]);
            least = least.min(values[i]);
            i = i + 1;
            assert(values@.take(i as int).drop_last() =~= values@.take(i - 1));
        }
        assert(values@.take(i as int) =~= values@);
        if num(ZERO).lt(most) {
            Some(m.over(m.minus(most, least), most))
        } else {
            None
        }
    }
}

/// The fraction of a decay curve that carries information, nine tenths.
///
/// A backward integral falls off a cliff at its end whatever the room did, and a fit
/// that reaches into the cliff reports a reverberation time that is pure artefact.
pub const TRUNCATION_GUARD: u32 = 0x3F66_6666;

/// The least spread of points that a line can be fitted to.
pub const LEAST_SPREAD: u64 = 0x3D71_9799_812D_EA11;

/// How much of a decay curve is searched, four points at the least.
pub open spec fn searchable<C: Fn(Calc) -> F32>(m: Arith<C>, len: int) -> int {
    let usable = ieee::saturated(
        m.times(m.count(len as usize), num(TRUNCATION_GUARD)).floor_int(),
        usize::MAX as int,
    );
    if usable < 4 {
        4
    } else {
        usable
    }
}

/// Whether the curve first falls to a level at `at`.
pub open spec fn first_falls_to(decay: Seq<F32>, level: F32, at: int) -> bool {
    &&& 0 <= at < decay.len()
    &&& decay[at].le(level)
    &&& forall|i: int| 0 <= i < at ==> !(#[trigger] decay[i]).le(level)
}

/// Whether the curve falls to a level at all.
pub open spec fn falls_to(decay: Seq<F32>, level: F32) -> bool {
    exists|at: int| first_falls_to(decay, level, at)
}

/// Where the curve first falls to a level.
pub open spec fn fall(decay: Seq<F32>, level: F32) -> int {
    choose|at: int| first_falls_to(decay, level, at)
}

fn find_fall(decay_db: &[F32], len: usize, level: F32) -> (at: Option<usize>)
    requires
        len <= decay_db@.len(),
    ensures
        at is Some <==> falls_to(decay_db@.take(len as int), level),
        at matches Some(i) ==> i < len && fall(decay_db@.take(len as int), level) == i,
{
    let ghost decay = decay_db@.take(len as int);
    let mut i: usize = 0;
    while i < len
        invariant
            i <= len,
            len <= decay_db@.len(),
            decay == decay_db@.take(len as int),
            forall|k: int| 0 <= k < i ==> !(#[trigger] decay[k]).le(level),
        decreases len - i,
    {
        assert(decay[i as int] == decay_db@[i as int]);
        if decay_db[i].le(level) {
            proof {
                assert(first_falls_to(decay, level, i as int));
                let other = fall(decay, level);
                assert(first_falls_to(decay, level, other));
                if other < i {
                    assert(!decay[other].le(level));
                } else if other > i {
                    assert(!decay[i as int].le(level));
                }
            }
            return Some(i);
        }
        i = i + 1;
    }
    None
}

/// The sums that a line is fitted from.
pub struct FitSums {
    pub x: F64,
    pub y: F64,
    pub xy: F64,
    pub xx: F64,
}

/// The sums over the first `n` points of a span.
pub open spec fn fit_sums<W: Fn(Wide) -> F64>(w: WideArith<W>, span: Seq<F32>, n: nat) -> FitSums
    decreases n,
{
    if n == 0 {
        FitSums { x: wide(0), y: wide(0), xy: wide(0), xx: wide(0) }
    } else {
        let before = fit_sums(w, span, (n - 1) as nat);
        let x = w.count((n - 1) as u64);
        let y = w.widen(span[n - 1]);
        FitSums {
            x: w.plus(before.x, x),
            y: w.plus(before.y, y),
            xy: w.plus(before.xy, w.times(x, y)),
            xx: w.plus(before.xx, w.times(x, x)),
        }
    }
}

/// The denominator of the least-squares slope.
pub open spec fn fit_denominator<W: Fn(Wide) -> F64>(w: WideArith<W>, span: Seq<F32>) -> F64 {
    let sums = fit_sums(w, span, span.len());
    w.minus(w.times(w.count(span.len() as u64), sums.xx), w.times(sums.x, sums.x))
}

/// The least-squares slope of a span, per sample.
pub open spec fn fit_slope<W: Fn(Wide) -> F64>(w: WideArith<W>, span: Seq<F32>) -> F64 {
    let sums = fit_sums(w, span, span.len());
    w.over(
        w.minus(w.times(w.count(span.len() as u64), sums.xy), w.times(sums.x, sums.y)),
        fit_denominator(w, span),
    )
}

/// Seconds taken to fall from one level to another, by least-squares fit. `None`
/// when the span is not reached in the searchable part, or does not fall.
pub open spec fn fitted<C: Fn(Calc) -> F32, W: Fn(Wide) -> F64>(
    m: Arith<C>,
    w: WideArith<W>,
    decay: Seq<F32>,
    sample_rate: F32,
    from_db: F32,
    to_db: F32,
) -> Option<F32> {
    let len = searchable(m, decay.len() as int);
    let part = decay.take(len);
    let start = fall(part, from_db);
    let end = fall(part, to_db);
    let span = part.subrange(start, end + 1);
    if sample_rate.le(num(ZERO)) || decay.len() < 4 || len > decay.len() {
        None
    } else if !falls_to(part, from_db) || !falls_to(part, to_db) || end <= start + 2 {
        None
    } else if fit_denominator(w, span).abs().lt(wide(LEAST_SPREAD)) || wide(0).le(
        fit_slope(w, span),
    ) {
        None
    } else {
        Some(
            m.narrow(
                w.over(
                    w.over(
                        w.widen(m.minus(from_db, to_db)),
                        fit_slope(w, span).spec_negated(),
                    ),
                    w.widen(sample_rate),
                ),
            ),
        )
    }
}

/// Seconds taken to fall from `from_db` to `to_db`, by least-squares fit.
///
/// The two crossings alone are at the mercy of whatever noise sits on the curve at
/// those two instants, while a fit uses every point between them.
pub fn fit_decay<C: Fn(Calc) -> F32, W: Fn(Wide) -> F64>(
    m: &Arith<C>,
    w: &WideArith<W>,
    decay_db: &[F32],
    sample_rate: F32,
    from_db: F32,
    to_db: F32,
) -> (seconds: Option<F32>)
    ensures
        seconds == fitted(*m, *w, decay_db@, sample_rate, from_db, to_db),
{
    if sample_rate.le(num(ZERO)) || decay_db.len() < 4 {
        return None;
    }
    let mut len: usize = m.times(m.count(decay_db.len()), num(TRUNCATION_GUARD)).floor_to_usize();
    if len < 4 {
        len = 4;
    }
    if len > decay_db.len() {
        return None;
    }
    let start: usize = match find_fall(decay_db, len, from_db) {
        Some(start) => start,
        None => {
            return None;
        },
    };
    let end: usize = match find_fall(decay_db, len, to_db) {
        Some(end) => end,
        None => {
            return None;
        },
    };
    if end <= start || end - start <= 2 {
        return None;
    }
    let ghost span = decay_db@.take(len as int).subrange(start as int, end + 1);
    let points: usize = end - start + 1;
    let mut sum_x = wide(0);
    let mut sum_y = wide(0);
    let mut sum_xy = wide(0);
    let mut sum_xx = wide(0);
    let mut i: usize = 0;
    while i < points
        invariant
            i <= points,
            points == end - start + 1,
            start < end < len <= decay_db@.len(),
            span == decay_db@.take(len as int).subrange(start as int, end + 1),
            fit_sums(*w, span, i as nat) == (FitSums {
                x: sum_x,
                y: sum_y,
                xy: sum_xy,
                xx: sum_xx,
            }),
        decreases points - i,
    {
        let x = w.count(i as u64);
        let y = w.widen(decay_db[start + i]);
        assert(span[i as int] == decay_db@[start + i]);
        sum_x = w.plus(sum_x, x);
        sum_y = w.plus(sum_y, y);
        sum_xy = w.plus(sum_xy, w.times(x, y));
        sum_xx = w.plus(sum_xx, w.times(x, x));
        i = i + 1;
    }
    let n = w.count(points as u64);
    let denominator = w.minus(w.times(n, sum_xx), w.times(sum_x, sum_x));
    if denominator.abs().lt(wide(LEAST_SPREAD)) {
        return None;
    }
    // Decibels per sample, negative for a decay.
    let slope = w.over(w.minus(w.times(n, sum_xy), w.times(sum_x, sum_y)), denominator);
    if wide(0).le(slope) {
        return None;
    }
    let range = w.widen(m.minus(from_db, to_db));
    Some(m.narrow(w.over(w.over(range, slope.negated()), w.widen(sample_rate))))
}

/// The ends of the fitted spans, in decibels, and the factors that extrapolate them
/// to sixty.
pub const MINUS_FIVE_DB: u32 = 0xC0A0_0000;

pub const MINUS_TEN_DB: u32 = 0xC120_0000;

pub const MINUS_TWENTY_FIVE_DB: u32 = 0xC1C8_0000;

pub const MINUS_THIRTY_FIVE_DB: u32 = 0xC20C_0000;

pub const SIX: u32 = 0x40C0_0000;

pub const THREE: u32 = 0x4040_0000;

/// A time extrapolated by a factor.
pub open spec fn extrapolated<C: Fn(Calc) -> F32>(
    m: Arith<C>,
    seconds: Option<F32>,
    factor: F32,
) -> Option<F32> {
    match seconds {
        Some(seconds) => Some(m.times(seconds, factor)),
        None => None,
    }
}

fn extrapolate<C: Fn(Calc) -> F32>(m: &Arith<C>, seconds: Option<F32>, factor: F32) -> (time: Option<
    F32,
>)
    ensures
        time == extrapolated(*m, seconds, factor),
{
    match seconds {
        Some(seconds) => Some(m.times(seconds, factor)),
        None => None,
    }
}

/// Estimate reverberation time from a decay curve.
pub fn reverb_time<C: Fn(Calc) -> F32, W: Fn(Wide) -> F64>(
    m: &Arith<C>,
    w: &WideArith<W>,
    decay_db: &[F32],
    sample_rate: F32,
) -> (time: ReverbTime)
    ensures
        time == (ReverbTime {
            edt: extrapolated(
                *m,
                fitted(*m, *w, decay_db@, sample_rate, num(ZERO), num(MINUS_TEN_DB)),
                num(SIX),
            ),
            t20: extrapolated(
                *m,
                fitted(
                    *m,
                    *w,
                    decay_db@,
                    sample_rate,
                    num(MINUS_FIVE_DB),
                    num(MINUS_TWENTY_FIVE_DB),
                ),
                num(THREE),
            ),
            t30: extrapolated(
                *m,
                fitted(
                    *m,
                    *w,
                    decay_db@,
                    sample_rate,
                    num(MINUS_FIVE_DB),
                    num(MINUS_THIRTY_FIVE_DB),
                ),
                num(TWO),
            ),
        }),
{
    let early = fit_decay(m, w, decay_db, sample_rate, num(ZERO), num(MINUS_TEN_DB));
    let twenty = fit_decay(
        m,
        w,
        decay_db,
        sample_rate,
        num(MINUS_FIVE_DB),
        num(MINUS_TWENTY_FIVE_DB),
    );
    let thirty = fit_decay(
        m,
        w,
        decay_db,
        sample_rate,
        num(MINUS_FIVE_DB),
        num(MINUS_THIRTY_FIVE_DB),
    );
    ReverbTime {
        edt: extrapolate(m, early, num(SIX)),
        t20: extrapolate(m, twenty, num(THREE)),
        t30: extrapolate(m, thirty, num(TWO)),
    }
}

/// Window kind recommended for transforming a gated response. Gating itself does
/// the tapering, so a second window would cost resolution for nothing.
pub fn recommended_gate_window() -> (kind: WindowKind)
    ensures
        kind == WindowKind::Rectangular,
{
    WindowKind::Rectangular
}

/// The fraction of a gate that is tapered.
#[verifier::allow_in_spec]
pub fn tapered_fraction<C: Fn(Calc) -> F32>(m: &Arith<C>, gate: &Gate) -> F32
    returns
        (if num(ZERO).lt(gate.length_seconds(m)) {
            m.over(gate.fade_seconds, gate.length_seconds(m)).clamp(num(ZERO), num(ONE))
        } else {
            num(ZERO)
        }),
{
    if num(ZERO).lt(gate.length_seconds(m)) {
        m.over(gate.fade_seconds, gate.length_seconds(m)).clamp(num(ZERO), num(ONE))
    } else {
        num(ZERO)
    }
}

/// Build a window matching a gate's length, for callers that want the taper
/// separately from the gating. `None` when a gate is shorter than a sample.
pub fn gate_window<C: Fn(Calc) -> F32>(m: &Arith<C>, gate: &Gate, sample_rate: F32) -> (window:
    Option<Window>)
    ensures
        ({
            let length = ieee::saturated(
                m.times(gate.length_seconds(m), sample_rate).floor_int(),
                usize::MAX as int,
            );
            let kind = WindowKind::Tukey { alpha: tapered_fraction(m, gate) };
            match window {
                None => length == 0,
                Some(window) => length > 0 && window.made(*m, kind, length as usize),
            }
        }),
{
    let length: usize = m.times(gate.length_seconds(m), sample_rate).floor_to_usize();
    if length == 0 {
        return None;
    }
    Some(Window::new(m, WindowKind::Tukey { alpha: tapered_fraction(m, gate) }, length))
}

/// What a gate keeps: the samples from the one nearest to its opening up to, and without,
/// the one nearest to its closing, and no other. All but those of the fade are kept as
/// they are; the fade is the end, and runs along half a cosine.
pub proof fn lemma_what_a_gate_keeps<C: Fn(Calc) -> F32>(
    m: Arith<C>,
    ir: ResponseModel,
    gate: Gate,
) -> (places: Seq<int>)
    requires
        num(ZERO).less(ir.sample_rate),
        ir.samples.len() <= usize::MAX,
    ensures
        ({
            let opens = ieee::saturated(
                m.plus(ir.peak_samples, m.times(gate.start_seconds, ir.sample_rate)).round_int(),
                usize::MAX as int,
            );
            let closes = ieee::saturated(
                m.plus(ir.peak_samples, m.times(gate.end_seconds, ir.sample_rate)).round_int(),
                usize::MAX as int,
            );
            let out = gated(m, ir, gate);
            let fade = ieee::saturated(
                m.times(gate.fade_seconds, ir.sample_rate).floor_int(),
                out.len() as int,
            );
            &&& choice::is_choice(
                places,
                ir.samples.len() as int,
                |k: int| opens <= k && k < closes,
            )
            &&& out.len() == places.len()
            &&& forall|i: int|
                0 <= i < out.len() && (i < out.len() - fade || fade <= 1) ==> #[trigger] out[i]
                    == ir.samples[places[i]]
            &&& forall|i: int|
                out.len() - fade <= i < out.len() && fade > 1 ==> #[trigger] out[i] == m.times(
                    ir.samples[places[i]],
                    m.times(
                        num(HALF),
                        m.plus(
                            num(ONE),
                            m.cosine(
                                m.times(
                                    num(PI),
                                    m.over(
                                        m.count((i - (out.len() - fade)) as usize),
                                        m.count((fade - 1) as usize),
                                    ),
                                ),
                            ),
                        ),
                    ),
                )
        }),
{
    let start = index_at(m, ir, gate.start_seconds);
    let end = gate_end(m, ir, gate);
    let closes = index_at(m, ir, gate.end_seconds);
    let keep = |k: int| start <= k && k < closes;
    ieee::lemma_round_not_negative(
        m.plus(ir.peak_samples, m.times(gate.start_seconds, ir.sample_rate)),
    );
    ieee::lemma_floor_not_negative(m.times(gate.fade_seconds, ir.sample_rate));
    if start < end {
        let places = choice::lemma_row_is_a_choice(ir.samples, start, end);
        choice::lemma_same_choice(
            places,
            ir.samples.len() as int,
            |k: int| start <= k < end,
            keep,
        );
        let samples = kept(m, ir, gate);
        assert forall|i: int| 0 <= i < samples.len() implies #[trigger] samples[i]
            == ir.samples[places[i]] by {
            assert(choice::at_places(ir.samples, places)[i] == ir.samples[places[i]]);
        }
        places
    } else {
        let places = Seq::<int>::empty();
        assert(choice::is_choice(places, ir.samples.len() as int, keep));
        places
    }
}

/// A gate that closes where it opens, or sooner, keeps nothing.
pub proof fn lemma_a_shut_gate_keeps_nothing<C: Fn(Calc) -> F32>(
    m: Arith<C>,
    ir: ResponseModel,
    gate: Gate,
)
    requires
        m.plus(ir.peak_samples, m.times(gate.end_seconds, ir.sample_rate)).at_most(
            m.plus(ir.peak_samples, m.times(gate.start_seconds, ir.sample_rate)),
        ),
    ensures
        gated(m, ir, gate).len() == 0,
{
    let opens = m.plus(ir.peak_samples, m.times(gate.start_seconds, ir.sample_rate));
    let closes = m.plus(ir.peak_samples, m.times(gate.end_seconds, ir.sample_rate));
    ieee::lemma_round_ascends(closes, opens);
}

/// A response is transformed from its first sample on, with zeros after its last.
pub proof fn lemma_gated_frame<C: Fn(Calc) -> F32>(
    m: Arith<C>,
    ir: ResponseModel,
    gate: Gate,
    fft_size: usize,
    i: int,
)
    requires
        0 <= i < fft_size,
    ensures
        gated_frame(m, ir, gate, fft_size).len() == fft_size,
        i < gated(m, ir, gate).len() ==> gated_frame(m, ir, gate, fft_size)[i] == gated(
            m,
            ir,
            gate,
        )[i],
        i >= gated(m, ir, gate).len() ==> gated_frame(m, ir, gate, fft_size)[i] == num(ZERO),
{
}

/// A decay curve begins at the sample at or before the arrival and has a point for each
/// sample from there on: the level of the energy from that sample to the end, over the
/// energy of all. Energy is the sum of squares.
pub proof fn lemma_decay_is_the_energy_left<C: Fn(Calc) -> F32, W: Fn(Wide) -> F64>(
    m: Arith<C>,
    w: WideArith<W>,
    ir: ResponseModel,
    start: int,
    i: int,
)
    requires
        0 <= start,
        0 <= i,
        start + i < ir.samples.len() <= usize::MAX,
        !ir.peak_samples.nan(),
        !ir.peak_samples.negative(),
        ieee::whole_value(start) <= ir.peak_samples.value() < ieee::whole_value(start + 1),
    ensures
        ({
            let len = ir.samples.len() - start;
            let curve = decay_curve(m, w, tail_of(ir));
            let whole = m.narrow(energy_of(w, ir.samples.skip(start)));
            let left = m.narrow(energy_of(w, ir.samples.skip(start + i)));
            &&& curve.len() == len
            &&& num(ZERO).less(whole) && num(ZERO).less(left) ==> curve[i] == m.times(
                num(TEN),
                m.log10(m.over(left, whole)),
            ).spec_max(num(IR_FLOOR_DB))
            &&& left.at_most(num(ZERO)) ==> curve[i] == num(IR_FLOOR_DB)
        }),
{
    ieee::lemma_rounded(ir.peak_samples, start);
    ieee::lemma_rounded(ir.peak_samples, start + 1);
    ieee::lemma_floor_not_negative(ir.peak_samples);
    assert(ir.peak_samples.floor_int() == start);
    if ir.peak_samples.rank() == 0 {
        assert(ir.peak_samples.bits == 0);
    }
    assert(tail_of(ir) =~= ir.samples.skip(start));
    lemma_energy_from(w, ir.samples.skip(start), 0);
    lemma_energy_from(w, ir.samples.skip(start), i);
    assert(ir.samples.skip(start).skip(0) =~= ir.samples.skip(start));
    assert(ir.samples.skip(start).skip(i) =~= ir.samples.skip(start + i));
}

/// The energy of samples: their squares, added from the last one back.
pub open spec fn energy_of<W: Fn(Wide) -> F64>(w: WideArith<W>, samples: Seq<F32>) -> F64 {
    arith::wide_total(
        w,
        Seq::new(
            samples.len(),
            |k: int|
                w.times(
                    w.widen(samples[samples.len() - 1 - k]),
                    w.widen(samples[samples.len() - 1 - k]),
                ),
        ),
    )
}

proof fn lemma_energy_from<W: Fn(Wide) -> F64>(w: WideArith<W>, tail: Seq<F32>, i: int)
    requires
        0 <= i <= tail.len(),
    ensures
        energy_from(w, tail, i) == energy_of(w, tail.skip(i)),
    decreases tail.len() - i,
{
    let here = tail.skip(i);
    let squares = Seq::new(
        here.len(),
        |k: int|
            w.times(w.widen(here[here.len() - 1 - k]), w.widen(here[here.len() - 1 - k])),
    );
    if i < tail.len() {
        lemma_energy_from(w, tail, i + 1);
        let next = tail.skip(i + 1);
        assert(squares.drop_last() =~= Seq::new(
            next.len(),
            |k: int|
                w.times(w.widen(next[next.len() - 1 - k]), w.widen(next[next.len() - 1 - k])),
        ));
        assert(squares.last() == w.times(w.widen(tail[i]), w.widen(tail[i])));
    }
}

/// The slope of a decay is the least-squares slope of every point of its span, ends
/// included, against their places.
pub proof fn lemma_slope_is_least_squares<W: Fn(Wide) -> F64>(w: WideArith<W>, span: Seq<F32>)
    ensures
        ({
            let n = w.count(span.len() as u64);
            let x = arith::wide_total(w, Seq::new(span.len(), |i: int| w.count(i as u64)));
            let y = arith::wide_total(w, Seq::new(span.len(), |i: int| w.widen(span[i])));
            let xy = arith::wide_total(
                w,
                Seq::new(span.len(), |i: int| w.times(w.count(i as u64), w.widen(span[i]))),
            );
            let xx = arith::wide_total(
                w,
                Seq::new(span.len(), |i: int| w.times(w.count(i as u64), w.count(i as u64))),
            );
            let below = w.minus(w.times(n, xx), w.times(x, x));
            &&& fit_denominator(w, span) == below
            &&& fit_slope(w, span) == w.over(w.minus(w.times(n, xy), w.times(x, y)), below)
        }),
{
    lemma_fit_sums(w, span, span.len());
}

proof fn lemma_fit_sums<W: Fn(Wide) -> F64>(w: WideArith<W>, span: Seq<F32>, n: nat)
    ensures
        ({
            let sums = fit_sums(w, span, n);
            &&& sums.x == arith::wide_total(w, Seq::new(n, |i: int| w.count(i as u64)))
            &&& sums.y == arith::wide_total(w, Seq::new(n, |i: int| w.widen(span[i])))
            &&& sums.xy == arith::wide_total(
                w,
                Seq::new(n, |i: int| w.times(w.count(i as u64), w.widen(span[i]))),
            )
            &&& sums.xx == arith::wide_total(
                w,
                Seq::new(n, |i: int| w.times(w.count(i as u64), w.count(i as u64))),
            )
        }),
    decreases n,
{
    let x = |i: int| w.count(i as u64);
    let y = |i: int| w.widen(span[i]);
    let xy = |i: int| w.times(w.count(i as u64), w.widen(span[i]));
    let xx = |i: int| w.times(w.count(i as u64), w.count(i as u64));
    if n > 0 {
        let less = (n - 1) as nat;
        lemma_fit_sums(w, span, less);
        assert(Seq::new(n, x).drop_last() =~= Seq::new(less, x));
        assert(Seq::new(n, y).drop_last() =~= Seq::new(less, y));
        assert(Seq::new(n, xy).drop_last() =~= Seq::new(less, xy));
        assert(Seq::new(n, xx).drop_last() =~= Seq::new(less, xx));
    }
}

/// A decay is fitted to the points from where the curve first falls to the upper level
/// to where it first falls to the lower one, four at least and the last tenth of the
/// curve left out; and only where it falls.
pub proof fn lemma_what_a_decay_is_fitted_to<C: Fn(Calc) -> F32, W: Fn(Wide) -> F64>(
    m: Arith<C>,
    w: WideArith<W>,
    decay: Seq<F32>,
    sample_rate: F32,
    from_db: F32,
    to_db: F32,
    start: int,
    end: int,
)
    requires
        num(ZERO).less(sample_rate),
        0 <= start,
        start + 3 <= end < decay.len() <= usize::MAX,
        end < 4 || ieee::whole_value(end + 1) <= m.times(
            m.count(decay.len() as usize),
            num(TRUNCATION_GUARD),
        ).value(),
        !m.times(m.count(decay.len() as usize), num(TRUNCATION_GUARD)).nan(),
        searchable(m, decay.len() as int) <= decay.len(),
        decay[start].at_most(from_db),
        forall|i: int| 0 <= i < start ==> !(#[trigger] decay[i]).at_most(from_db),
        decay[end].at_most(to_db),
        forall|i: int| 0 <= i < end ==> !(#[trigger] decay[i]).at_most(to_db),
    ensures
        ({
            let span = decay.subrange(start, end + 1);
            let slope = fit_slope(w, span);
            let time = fitted(m, w, decay, sample_rate, from_db, to_db);
            if fit_denominator(w, span).spec_abs().less(wide(LEAST_SPREAD)) || wide(0).at_most(
                slope,
            ) {
                time is None
            } else {
                time == Some(
                    m.narrow(
                        w.over(
                            w.over(w.widen(m.minus(from_db, to_db)), slope.spec_negated()),
                            w.widen(sample_rate),
                        ),
                    ),
                )
            }
        }),
{
    let guarded = m.times(m.count(decay.len() as usize), num(TRUNCATION_GUARD));
    ieee::lemma_rounded(guarded, end + 1);
    let len = searchable(m, decay.len() as int);
    assert(end < len);
    let part = decay.take(len);
    assert(first_falls_to(part, from_db, start)) by {
        assert forall|i: int| 0 <= i < start implies !(#[trigger] part[i]).le(from_db) by {
            assert(part[i] == decay[i]);
        }
    }
    assert(first_falls_to(part, to_db, end)) by {
        assert forall|i: int| 0 <= i < end implies !(#[trigger] part[i]).le(to_db) by {
            assert(part[i] == decay[i]);
        }
    }
    lemma_fall_is_one(part, from_db, start);
    lemma_fall_is_one(part, to_db, end);
    assert(part.subrange(start, end + 1) =~= decay.subrange(start, end + 1));
}

/// What happens in the last tenth of a curve is no decay: a level that is only reached
/// there gives no time.
pub proof fn lemma_the_last_tenth_is_left_out<C: Fn(Calc) -> F32, W: Fn(Wide) -> F64>(
    m: Arith<C>,
    w: WideArith<W>,
    decay: Seq<F32>,
    sample_rate: F32,
    from_db: F32,
    to_db: F32,
)
    requires
        decay.len() <= usize::MAX,
        !m.times(m.count(decay.len() as usize), num(TRUNCATION_GUARD)).nan(),
        forall|i: int|
            0 <= i < decay.len() && (i < 4 || ieee::whole_value(i + 1) <= m.times(
                m.count(decay.len() as usize),
                num(TRUNCATION_GUARD),
            ).value()) ==> !(#[trigger] decay[i]).at_most(to_db),
    ensures
        fitted(m, w, decay, sample_rate, from_db, to_db) is None,
{
    let guarded = m.times(m.count(decay.len() as usize), num(TRUNCATION_GUARD));
    let len = searchable(m, decay.len() as int);
    if len <= decay.len() {
        let part = decay.take(len);
        assert forall|at: int| !first_falls_to(part, to_db, at) by {
            if 0 <= at < len {
                assert(part[at] == decay[at]);
                ieee::lemma_rounded(guarded, at + 1);
                assert(!decay[at].at_most(to_db));
            }
        }
    }
}

proof fn lemma_fall_is_one(decay: Seq<F32>, level: F32, at: int)
    requires
        first_falls_to(decay, level, at),
    ensures
        falls_to(decay, level),
        fall(decay, level) == at,
{
    let other = fall(decay, level);
    assert(first_falls_to(decay, level, other));
    if other < at {
        assert(!decay[other].le(level));
    } else if at < other {
        assert(!decay[at].le(level));
    }
}

/// Every estimate lies between the shortest and the longest, which are estimates
/// themselves.
pub proof fn lemma_spread_covers_the_estimates(values: Seq<F32>)
    requires
        values.len() > 0,
        forall|i: int| 0 <= i < values.len() ==> (#[trigger] values[i]).finite(),
    ensures
        forall|i: int|
            0 <= i < values.len() ==> shortest(values).at_most(#[trigger] values[i])
                && values[i].at_most(longest(values)),
        exists|i: int| 0 <= i < values.len() && (#[trigger] values[i]).rank() == longest(values).rank(),
        exists|i: int| 0 <= i < values.len() && (#[trigger] values[i]).rank() == shortest(
            values,
        ).rank(),
    decreases values.len(),
{
    let rest = values.drop_last();
    let end = values.len() - 1;
    assert(values[end].finite());
    if rest.len() > 0 {
        assert forall|i: int| 0 <= i < rest.len() implies (#[trigger] rest[i]).finite() by {
            assert(rest[i] == values[i]);
        }
        lemma_spread_covers_the_estimates(rest);
        assert forall|i: int| 0 <= i < values.len() implies shortest(values).at_most(
            #[trigger] values[i],
        ) && values[i].at_most(longest(values)) by {
            if i < end {
                assert(rest[i] == values[i]);
            } else {
                assert(!rest[0].nan());
            }
        }
        let most = choose|i: int|
            0 <= i < rest.len() && (#[trigger] rest[i]).rank() == longest(rest).rank();
        let least = choose|i: int|
            0 <= i < rest.len() && (#[trigger] rest[i]).rank() == shortest(rest).rank();
        assert(values[most] == rest[most]);
        assert(values[least] == rest[least]);
        assert(values[if longest(values) == values[end] {
            end
        } else {
            most
        }].rank() == longest(values).rank());
        assert(values[if shortest(values) == values[end] {
            end
        } else {
            least
        }].rank() == shortest(values).rank());
    } else {
        reveal_with_fuel(longest, 2);
        reveal_with_fuel(shortest, 2);
        assert(values[0].rank() == longest(values).rank());
        assert(values[0].rank() == shortest(values).rank());
    }
}

/// A gate resolves one over its length, which is from where it opens to where it closes;
/// the taper of an anechoic one is a quarter of it, two milliseconds at the most.
pub proof fn lemma_gate_resolution<C: Fn(Calc) -> F32>(m: Arith<C>, gate: Gate, end_seconds: F32)
    ensures
        ({
            let length = m.minus(gate.end_seconds, gate.start_seconds);
            let anechoic = Gate::anechoic(&m, end_seconds);
            let quarter = m.times(end_seconds, num(QUARTER));
            &&& num(ZERO).less(length) ==> gate.length_seconds(&m) == length
                && gate.resolution_hz(&m) == m.over(num(ONE), length)
            &&& !num(ZERO).less(length) && !length.nan() ==> gate.resolution_hz(&m) == num(INFINITY)
            &&& anechoic.end_seconds == end_seconds
            &&& anechoic.start_seconds == num(LEAD_SECONDS)
            &&& quarter.less(num(LONGEST_FADE_SECONDS)) ==> anechoic.fade_seconds == quarter
            &&& num(LONGEST_FADE_SECONDS).less(quarter) ==> anechoic.fade_seconds == num(
                LONGEST_FADE_SECONDS,
            )
        }),
{
}

/// The estimates of a reverberation time are those that there are, each once.
pub proof fn lemma_estimates_there_are(time: ReverbTime)
    ensures
        time.edt matches Some(edt) ==> estimates(time).contains(edt),
        time.t20 matches Some(t20) ==> estimates(time).contains(t20),
        time.t30 matches Some(t30) ==> estimates(time).contains(t30),
        estimates(time).len() == (if time.edt is Some {
            1int
        } else {
            0
        }) + (if time.t20 is Some {
            1int
        } else {
            0
        }) + (if time.t30 is Some {
            1int
        } else {
            0
        }),
{
    let all = estimates(time);
    if time.edt is Some {
        assert(all[0] == time.edt->0);
    }
    if time.t20 is Some {
        assert(all[if time.edt is Some {
            1
        } else {
            0
        }] == time.t20->0);
    }
    if time.t30 is Some {
        assert(all[all.len() - 1] == time.t30->0);
    }
}

} // verus!

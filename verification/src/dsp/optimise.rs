//! Fitting parametric filters to the gap between a measurement and a target.
//!
//! The fit is greedy with local refinement, so that every filter corresponds to a
//! feature one can point at. Each round finds the largest remaining error, places a
//! peaking filter on it, refines that filter by coordinate descent, subtracts its
//! response from the residual, and repeats. Filters cascade, so their levels add and
//! subtracting is exact.
//!
//! Boost is capped far harder than cut: a dip is usually a cancellation, and no
//! amount of gain fills it in. The modal region alone is corrected by default, since
//! above it the response varies with the position of the microphone.

use vstd::prelude::*;

use crate::arith;
use crate::arith::{magnitudes_of, Arith, Calc, Wide, WideArith};
use crate::choice;
use crate::dsp::biquad::Biquad;
use crate::dsp::eq::{FilterBand, FilterKind};
use crate::dsp::peak;
use crate::dsp::peak::find_last_peak;
use crate::dsp::target;
use crate::dsp::target::{TargetCurve, TargetModel};
use crate::ieee::{F32, F64};
use crate::numbers::{num, wide, HALF, ONE, TWENTY, TWO, ZERO};

verus! {

/// The default band, 20 Hz to 500 Hz.
pub const DEFAULT_FROM_HZ: u32 = 0x41A0_0000;

pub const DEFAULT_TO_HZ: u32 = 0x43FA_0000;

/// The default caps: three decibels of boost, twelve of cut.
pub const DEFAULT_MAX_BOOST_DB: u32 = 0x4040_0000;

pub const DEFAULT_MAX_CUT_DB: u32 = 0x4140_0000;

/// The default range of quality factors, a half to eight.
pub const DEFAULT_MAX_Q: u32 = 0x4100_0000;

pub const DEFAULT_MIN_Q: u32 = 0x3F00_0000;

/// The default threshold, half a decibel.
pub const DEFAULT_THRESHOLD_DB: u32 = 0x3F00_0000;

/// The default rate, 48 kHz.
pub const DEFAULT_SAMPLE_RATE: u32 = 0x473B_8000;

/// The most filters of any fit.
pub const MOST_FILTERS: usize = 64;

/// The least gain a filter is kept for, a twentieth of a decibel.
pub const LEAST_GAIN_DB: u32 = 0x3D4C_CCCD;

/// The quality factor where a feature has no width.
pub const PLAIN_Q: u32 = 0x4080_0000;

/// The steps that refinement tries, a tenth and a twenty-fifth.
pub const LONG_STEP: u32 = 0x3DCC_CCCD;

pub const SHORT_STEP: u32 = 0x3D23_D70A;

/// Rounds of refinement.
pub const ROUNDS: usize = 4;

/// How the fit is constrained.
#[derive(Debug, Clone, Copy, PartialEq, Eq, Structural)]
pub struct OptimiserConfig {
    /// Most filters to produce. The fit stops early once nothing is left worth
    /// correcting.
    pub max_filters: usize,
    /// Low end of the corrected band, in hertz.
    pub from_hz: F32,
    /// High end of the corrected band, in hertz.
    pub to_hz: F32,
    /// Largest boost any one filter may apply.
    pub max_boost_db: F32,
    /// Largest cut any one filter may apply.
    pub max_cut_db: F32,
    /// Narrowest filter allowed.
    pub max_q: F32,
    /// Widest filter allowed.
    pub min_q: F32,
    /// Errors smaller than this are left alone.
    pub threshold_db: F32,
    /// Rate the filters are designed at.
    pub sample_rate: F32,
}

impl Default for OptimiserConfig {
    fn default() -> (config: OptimiserConfig)
        ensures
            config == OptimiserConfig::usual(),
    {
        OptimiserConfig::usual()
    }
}

impl OptimiserConfig {
    /// The constraints of the usual fit.
    #[verifier::allow_in_spec]
    pub fn usual() -> OptimiserConfig
        returns
            (OptimiserConfig {
                max_filters: 8,
                from_hz: num(DEFAULT_FROM_HZ),
                to_hz: num(DEFAULT_TO_HZ),
                max_boost_db: num(DEFAULT_MAX_BOOST_DB),
                max_cut_db: num(DEFAULT_MAX_CUT_DB),
                max_q: num(DEFAULT_MAX_Q),
                min_q: num(DEFAULT_MIN_Q),
                threshold_db: num(DEFAULT_THRESHOLD_DB),
                sample_rate: num(DEFAULT_SAMPLE_RATE),
            }),
    {
        OptimiserConfig {
            max_filters: 8,
            from_hz: num(DEFAULT_FROM_HZ),
            to_hz: num(DEFAULT_TO_HZ),
            max_boost_db: num(DEFAULT_MAX_BOOST_DB),
            max_cut_db: num(DEFAULT_MAX_CUT_DB),
            max_q: num(DEFAULT_MAX_Q),
            min_q: num(DEFAULT_MIN_Q),
            threshold_db: num(DEFAULT_THRESHOLD_DB),
            sample_rate: num(DEFAULT_SAMPLE_RATE),
        }
    }

    /// The configuration forced into a shape the fit can use.
    pub open spec fn usable<C: Fn(Calc) -> F32>(self, m: Arith<C>) -> OptimiserConfig {
        let usual = OptimiserConfig::usual();
        let from_hz = if !self.from_hz.finite() || self.from_hz.le(num(ZERO)) {
            usual.from_hz
        } else {
            self.from_hz
        };
        let min_q = if !self.min_q.finite() || self.min_q.le(num(ZERO)) {
            usual.min_q
        } else {
            self.min_q
        };
        OptimiserConfig {
            max_filters: if self.max_filters > MOST_FILTERS {
                MOST_FILTERS
            } else {
                self.max_filters
            },
            from_hz,
            to_hz: if !self.to_hz.finite() || self.to_hz.le(from_hz) {
                m.times(from_hz, num(TWO)).spec_max(usual.to_hz)
            } else {
                self.to_hz
            },
            max_boost_db: self.max_boost_db.spec_max(num(ZERO)),
            max_cut_db: self.max_cut_db.spec_max(num(ZERO)),
            max_q: if !self.max_q.finite() || self.max_q.lt(min_q) {
                min_q.spec_max(usual.max_q)
            } else {
                self.max_q
            },
            min_q,
            threshold_db: if !self.threshold_db.finite() || self.threshold_db.lt(num(ZERO)) {
                usual.threshold_db
            } else {
                self.threshold_db
            },
            sample_rate: if !self.sample_rate.finite() || self.sample_rate.le(num(ZERO)) {
                usual.sample_rate
            } else {
                self.sample_rate
            },
        }
    }

    /// Force the configuration into a shape the fit can use.
    pub fn validated<C: Fn(Calc) -> F32>(self, m: &Arith<C>) -> (config: OptimiserConfig)
        ensures
            config == self.usable(*m),
    {
        let usual = OptimiserConfig::usual();
        let mut config = self;
        if !config.from_hz.is_finite() || config.from_hz.le(num(ZERO)) {
            config.from_hz = usual.from_hz;
        }
        if !config.to_hz.is_finite() || config.to_hz.le(config.from_hz) {
            config.to_hz = m.times(config.from_hz, num(TWO)).max(usual.to_hz);
        }
        if !config.min_q.is_finite() || config.min_q.le(num(ZERO)) {
            config.min_q = usual.min_q;
        }
        if !config.max_q.is_finite() || config.max_q.lt(config.min_q) {
            config.max_q = config.min_q.max(usual.max_q);
        }
        config.max_boost_db = config.max_boost_db.max(num(ZERO));
        config.max_cut_db = config.max_cut_db.max(num(ZERO));
        if !config.threshold_db.is_finite() || config.threshold_db.lt(num(ZERO)) {
            config.threshold_db = usual.threshold_db;
        }
        if !config.sample_rate.is_finite() || config.sample_rate.le(num(ZERO)) {
            config.sample_rate = usual.sample_rate;
        }
        if config.max_filters > MOST_FILTERS {
            config.max_filters = MOST_FILTERS;
        }
        config
    }
}

/// What a fit produced.
#[derive(Debug, Clone, PartialEq)]
pub struct Optimisation {
    /// The filters, in the order they were placed.
    pub bands: Vec<FilterBand>,
    /// Root-mean-square error across the corrected band before any filter.
    pub initial_error_db: F32,
    /// The same after every filter.
    pub final_error_db: F32,
}

impl Default for Optimisation {
    fn default() -> (fit: Optimisation)
        ensures
            fit.bands@ == Seq::<FilterBand>::empty(),
            fit.initial_error_db == num(ZERO),
            fit.final_error_db == num(ZERO),
    {
        Optimisation {
            bands: Vec::new(),
            initial_error_db: num(ZERO),
            final_error_db: num(ZERO),
        }
    }
}

impl Optimisation {
    /// Improvement in the RMS error, in decibels. Negative would mean the fit made
    /// things worse.
    pub fn improvement_db<C: Fn(Calc) -> F32>(&self, m: &Arith<C>) -> (db: F32)
        ensures
            db == m.minus(self.initial_error_db, self.final_error_db),
    {
        m.minus(self.initial_error_db, self.final_error_db)
    }
}

/// What is left to correct at a frequency.
#[derive(Debug, Clone, Copy, PartialEq, Eq, Structural)]
pub struct ErrorPoint {
    pub hz: F32,
    pub error: F32,
}

/// The errors of points.
pub open spec fn errors(points: Seq<ErrorPoint>) -> Seq<F32> {
    Seq::new(points.len(), |i: int| points[i].error)
}

/// Whether a measured point is corrected: inside the band, and usable.
#[verifier::allow_in_spec]
pub fn corrects(config: &OptimiserConfig, hz: F32, measured: F32) -> bool
    returns
        config.from_hz.le(hz) && hz.le(config.to_hz) && hz.is_finite() && measured.is_finite(),
{
    config.from_hz.le(hz) && hz.le(config.to_hz) && hz.is_finite() && measured.is_finite()
}

/// What the correction has to remove, from the first `n` points of a measurement.
pub open spec fn residual<C: Fn(Calc) -> F32>(
    m: Arith<C>,
    frequencies: Seq<F32>,
    measured_db: Seq<F32>,
    target: TargetModel,
    config: OptimiserConfig,
    n: nat,
) -> Seq<ErrorPoint>
    decreases n,
{
    if n == 0 {
        Seq::empty()
    } else {
        let before = residual(m, frequencies, measured_db, target, config, (n - 1) as nat);
        let hz = frequencies[n - 1];
        let measured = measured_db[n - 1];
        if corrects(&config, hz, measured) {
            before.push(ErrorPoint { hz, error: m.minus(measured, target.level(m, hz)) })
        } else {
            before
        }
    }
}

/// The error that is left once a section is applied.
#[verifier::allow_in_spec]
pub fn corrected<C: Fn(Calc) -> F32>(m: &Arith<C>, magnitude: F32, error: F32) -> F32
    returns
        (if num(ZERO).lt(magnitude) {
            m.plus(error, m.times(num(TWENTY), m.log10(magnitude)))
        } else {
            error
        }),
{
    if num(ZERO).lt(magnitude) {
        m.plus(error, m.times(num(TWENTY), m.log10(magnitude)))
    } else {
        error
    }
}

/// The points that are left once a section is applied.
pub open spec fn applied<C: Fn(Calc) -> F32>(
    m: Arith<C>,
    points: Seq<ErrorPoint>,
    section: Biquad,
    sample_rate: F32,
) -> Seq<ErrorPoint> {
    Seq::new(
        points.len(),
        |i: int|
            ErrorPoint {
                hz: points[i].hz,
                error: corrected(
                    &m,
                    m.norm(section.spec_response_at(m, points[i].hz, sample_rate)),
                    points[i].error,
                ),
            },
    )
}

/// The sum of the squares of the first `n` errors.
pub open spec fn square_sum<W: Fn(Wide) -> F64>(
    w: WideArith<W>,
    points: Seq<ErrorPoint>,
    n: nat,
) -> F64
    decreases n,
{
    if n == 0 {
        wide(0)
    } else {
        w.plus(
            square_sum(w, points, (n - 1) as nat),
            w.times(w.widen(points[n - 1].error), w.widen(points[n - 1].error)),
        )
    }
}

/// Root-mean-square of the residual.
pub open spec fn rms<C: Fn(Calc) -> F32, W: Fn(Wide) -> F64>(
    m: Arith<C>,
    w: WideArith<W>,
    points: Seq<ErrorPoint>,
) -> F32 {
    m.narrow(w.root(w.over(square_sum(w, points, points.len()), w.count(points.len() as u64))))
}

/// Residual RMS if a band were applied.
pub open spec fn score_of<C: Fn(Calc) -> F32, W: Fn(Wide) -> F64>(
    m: Arith<C>,
    w: WideArith<W>,
    band: FilterBand,
    points: Seq<ErrorPoint>,
    config: OptimiserConfig,
) -> F32 {
    rms(m, w, applied(m, points, band.design(&m, config.sample_rate), config.sample_rate))
}

/// Whether an error has fallen to half of a peak.
#[verifier::allow_in_spec]
pub fn crossed<C: Fn(Calc) -> F32>(m: &Arith<C>, peak_error: F32, error: F32) -> bool
    returns
        (if num(ZERO).lt(peak_error) {
            error.lt(m.over(peak_error, num(TWO)))
        } else {
            m.over(peak_error, num(TWO)).lt(error)
        }),
{
    if num(ZERO).lt(peak_error) {
        error.lt(m.over(peak_error, num(TWO)))
    } else {
        m.over(peak_error, num(TWO)).lt(error)
    }
}

/// The first point at or above a frequency, from `from` on; the first of all where
/// there is none.
pub open spec fn first_reaching(points: Seq<ErrorPoint>, hz: F32, from: int) -> int
    decreases points.len() - from,
{
    if from >= points.len() {
        0
    } else if hz.le(points[from].hz) {
        from
    } else {
        first_reaching(points, hz, from + 1)
    }
}

/// The lower edge of a feature: the nearest frequency below place `at` where the
/// error has fallen to half, or the lowest of all.
pub open spec fn low_edge<C: Fn(Calc) -> F32>(
    m: Arith<C>,
    points: Seq<ErrorPoint>,
    peak_error: F32,
    at: int,
) -> F32
    decreases at,
{
    if at <= 0 {
        points[0].hz
    } else if crossed(&m, peak_error, points[at - 1].error) {
        points[at - 1].hz
    } else {
        low_edge(m, points, peak_error, at - 1)
    }
}

/// The upper edge of a feature: the nearest frequency at or above place `at` where
/// the error has fallen to half, or the highest of all.
pub open spec fn high_edge<C: Fn(Calc) -> F32>(
    m: Arith<C>,
    points: Seq<ErrorPoint>,
    peak_error: F32,
    at: int,
) -> F32
    decreases points.len() - at,
{
    if at >= points.len() {
        points.last().hz
    } else if crossed(&m, peak_error, points[at].error) {
        points[at].hz
    } else {
        high_edge(m, points, peak_error, at + 1)
    }
}

/// The quality factor of a feature between two edges: centre over bandwidth, with the
/// centre taken as the geometric mean because the axis is logarithmic.
#[verifier::allow_in_spec]
pub fn q_between<C: Fn(Calc) -> F32>(
    m: &Arith<C>,
    low: F32,
    high: F32,
    config: &OptimiserConfig,
) -> F32
    returns
        (if high.le(low) || low.le(num(ZERO)) {
            num(PLAIN_Q).clamp(config.min_q, config.max_q)
        } else {
            m.over(m.root(m.times(low, high)), m.minus(high, low)).clamp(
                config.min_q,
                config.max_q,
            )
        }),
{
    if high.le(low) || low.le(num(ZERO)) {
        return num(PLAIN_Q).clamp(config.min_q, config.max_q);
    }
    let bandwidth = m.minus(high, low);
    let centre = m.root(m.times(low, high));
    m.over(centre, bandwidth).clamp(config.min_q, config.max_q)
}

/// A quality factor guessed from how wide the feature around a peak is.
pub open spec fn estimated_q<C: Fn(Calc) -> F32>(
    m: Arith<C>,
    points: Seq<ErrorPoint>,
    peak_hz: F32,
    peak_error: F32,
    config: OptimiserConfig,
) -> F32 {
    let at = first_reaching(points, peak_hz, 0);
    q_between(
        &m,
        low_edge(m, points, peak_error, at),
        high_edge(m, points, peak_error, at + 1),
        &config,
    )
}

/// The gain a filter on a peak begins with: the error undone, as far as the caps
/// allow.
#[verifier::allow_in_spec]
pub fn starting_gain(peak_error: F32, config: &OptimiserConfig) -> F32
    returns
        (if num(ZERO).lt(peak_error) {
            peak_error.negated().max(config.max_cut_db.negated())
        } else {
            peak_error.negated().min(config.max_boost_db)
        }),
{
    if num(ZERO).lt(peak_error) {
        peak_error.negated().max(config.max_cut_db.negated())
    } else {
        peak_error.negated().min(config.max_boost_db)
    }
}

/// A band with its frequency moved by a factor.
#[verifier::allow_in_spec]
pub fn moved_hz<C: Fn(Calc) -> F32>(
    m: &Arith<C>,
    band: FilterBand,
    factor: F32,
    config: &OptimiserConfig,
) -> FilterBand
    returns
        (FilterBand { hz: m.times(band.hz, factor).clamp(config.from_hz, config.to_hz), ..band }),
{
    FilterBand { hz: m.times(band.hz, factor).clamp(config.from_hz, config.to_hz), ..band }
}

/// A band with its quality factor moved by a factor.
#[verifier::allow_in_spec]
pub fn moved_q<C: Fn(Calc) -> F32>(
    m: &Arith<C>,
    band: FilterBand,
    factor: F32,
    config: &OptimiserConfig,
) -> FilterBand
    returns
        (FilterBand { q: m.times(band.q, factor).clamp(config.min_q, config.max_q), ..band }),
{
    FilterBand { q: m.times(band.q, factor).clamp(config.min_q, config.max_q), ..band }
}

/// A band with its gain moved by a factor.
#[verifier::allow_in_spec]
pub fn moved_gain<C: Fn(Calc) -> F32>(
    m: &Arith<C>,
    band: FilterBand,
    factor: F32,
    config: &OptimiserConfig,
) -> FilterBand
    returns
        (FilterBand {
            gain_db: m.times(band.gain_db, factor).clamp(
                config.max_cut_db.negated(),
                config.max_boost_db,
            ),
            ..band
        }),
{
    FilterBand {
        gain_db: m.times(band.gain_db, factor).clamp(
            config.max_cut_db.negated(),
            config.max_boost_db,
        ),
        ..band
    }
}

/// The better of two bands, the first one unless the second is better.
pub open spec fn better<C: Fn(Calc) -> F32, W: Fn(Wide) -> F64>(
    m: Arith<C>,
    w: WideArith<W>,
    best: FilterBand,
    candidate: FilterBand,
    points: Seq<ErrorPoint>,
    config: OptimiserConfig,
) -> FilterBand {
    if score_of(m, w, candidate, points, config).lt(score_of(m, w, best, points, config)) {
        candidate
    } else {
        best
    }
}

/// The best of a band and what a factor makes of `band`: its frequency, its quality
/// factor and its gain moved, one at a time.
pub open spec fn tried<C: Fn(Calc) -> F32, W: Fn(Wide) -> F64>(
    m: Arith<C>,
    w: WideArith<W>,
    best: FilterBand,
    band: FilterBand,
    factor: F32,
    points: Seq<ErrorPoint>,
    config: OptimiserConfig,
) -> FilterBand {
    let first = better(m, w, best, moved_hz(&m, band, factor, &config), points, config);
    let second = better(m, w, first, moved_q(&m, band, factor, &config), points, config);
    better(m, w, second, moved_gain(&m, band, factor, &config), points, config)
}

/// One round of refinement with a step.
pub open spec fn round_of<C: Fn(Calc) -> F32, W: Fn(Wide) -> F64>(
    m: Arith<C>,
    w: WideArith<W>,
    band: FilterBand,
    step: F32,
    points: Seq<ErrorPoint>,
    config: OptimiserConfig,
) -> FilterBand {
    let far_down = m.minus(num(ONE), m.times(num(LONG_STEP), step));
    let down = m.minus(num(ONE), m.times(num(SHORT_STEP), step));
    let up = m.plus(num(ONE), m.times(num(SHORT_STEP), step));
    let far_up = m.plus(num(ONE), m.times(num(LONG_STEP), step));
    let first = tried(m, w, band, band, far_down, points, config);
    let second = tried(m, w, first, band, down, points, config);
    let third = tried(m, w, second, band, up, points, config);
    tried(m, w, third, band, far_up, points, config)
}

/// The step of round `n`: one, halved once for every round before.
pub open spec fn step_of<C: Fn(Calc) -> F32>(m: Arith<C>, n: nat) -> F32
    decreases n,
{
    if n == 0 {
        num(ONE)
    } else {
        m.times(step_of(m, (n - 1) as nat), num(HALF))
    }
}

/// A band after `n` rounds of refinement.
pub open spec fn refined<C: Fn(Calc) -> F32, W: Fn(Wide) -> F64>(
    m: Arith<C>,
    w: WideArith<W>,
    band: FilterBand,
    points: Seq<ErrorPoint>,
    config: OptimiserConfig,
    n: nat,
) -> FilterBand
    decreases n,
{
    if n == 0 {
        band
    } else {
        round_of(
            m,
            w,
            refined(m, w, band, points, config, (n - 1) as nat),
            step_of(m, (n - 1) as nat),
            points,
            config,
        )
    }
}

/// The filter on the largest remaining error, as it begins.
pub open spec fn starting_band<C: Fn(Calc) -> F32>(
    m: Arith<C>,
    points: Seq<ErrorPoint>,
    config: OptimiserConfig,
) -> FilterBand {
    let top = points[peak::last_peak(arith::magnitudes(errors(points)))];
    FilterBand {
        kind: FilterKind::Peaking,
        hz: top.hz,
        gain_db: starting_gain(top.error, &config),
        q: estimated_q(m, points, top.hz, top.error, config),
        enabled: true,
    }
}

/// The filter placed on the largest remaining error. `None` once nothing exceeds the
/// threshold, or refinement shrinks the filter to nothing.
pub open spec fn placed<C: Fn(Calc) -> F32, W: Fn(Wide) -> F64>(
    m: Arith<C>,
    w: WideArith<W>,
    points: Seq<ErrorPoint>,
    config: OptimiserConfig,
) -> Option<FilterBand> {
    let top = points[peak::last_peak(arith::magnitudes(errors(points)))];
    let band = refined(m, w, starting_band(m, points, config), points, config, ROUNDS as nat);
    if points.len() == 0 || top.error.spec_abs().lt(config.threshold_db) {
        None
    } else if num(LEAST_GAIN_DB).le(band.gain_db.spec_abs()) {
        Some(band)
    } else {
        None
    }
}

/// Where a fit stands.
#[verifier::ext_equal]
pub struct FitModel {
    /// The residual that is left.
    pub points: Seq<ErrorPoint>,
    /// The filters placed so far.
    pub bands: Seq<FilterBand>,
}

/// A fit after at most `n` filters.
pub open spec fn fitted<C: Fn(Calc) -> F32, W: Fn(Wide) -> F64>(
    m: Arith<C>,
    w: WideArith<W>,
    points: Seq<ErrorPoint>,
    config: OptimiserConfig,
    n: nat,
) -> FitModel
    decreases n,
{
    if n == 0 {
        FitModel { points, bands: Seq::empty() }
    } else {
        let before = fitted(m, w, points, config, (n - 1) as nat);
        match placed(m, w, before.points, config) {
            // The residual stays as it is, so that nothing follows either.
            None => before,
            Some(band) => FitModel {
                points: applied(
                    m,
                    before.points,
                    band.design(&m, config.sample_rate),
                    config.sample_rate,
                ),
                bands: before.bands.push(band),
            },
        }
    }
}

/// Subtract a section's response from the residual.
fn apply<C: Fn(Calc) -> F32>(
    m: &Arith<C>,
    points: &[ErrorPoint],
    band: &FilterBand,
    sample_rate: F32,
) -> (left: Vec<ErrorPoint>)
    ensures
        left@ == applied(*m, points@, band.design(m, sample_rate), sample_rate),
{
    let section = band.design(m, sample_rate);
    let mut left: Vec<ErrorPoint> = Vec::new();
    let mut i: usize = 0;
    while i < points.len()
        invariant
            i <= points@.len(),
            left@.len() == i,
            forall|k: int|
                0 <= k < i ==> #[trigger] left@[k] == applied(
                    *m,
                    points@,
                    section,
                    sample_rate,
                )[k],
        decreases points@.len() - i,
    {
        let point = points[i];
        let magnitude = section.magnitude_at(m, point.hz, sample_rate);
        left.push(ErrorPoint { hz: point.hz, error: corrected(m, magnitude, point.error) });
        i = i + 1;
    }
    assert(left@ =~= applied(*m, points@, section, sample_rate));
    left
}

/// Root-mean-square of the residual.
fn rms_of<C: Fn(Calc) -> F32, W: Fn(Wide) -> F64>(
    m: &Arith<C>,
    w: &WideArith<W>,
    points: &[ErrorPoint],
) -> (error: F32)
    ensures
        error == rms(*m, *w, points@),
{
    let mut sum = wide(0);
    let mut i: usize = 0;
    while i < points.len()
        invariant
            i <= points@.len(),
            sum == square_sum(*w, points@, i as nat),
        decreases points@.len() - i,
    {
        let error = w.widen(points[i].error);
        sum = w.plus(sum, w.times(error, error));
        i = i + 1;
    }
    m.narrow(w.root(w.over(sum, w.count(points.len() as u64))))
}

/// Residual RMS if a band were applied.
fn score<C: Fn(Calc) -> F32, W: Fn(Wide) -> F64>(
    m: &Arith<C>,
    w: &WideArith<W>,
    band: &FilterBand,
    points: &[ErrorPoint],
    config: &OptimiserConfig,
) -> (error: F32)
    ensures
        error == score_of(*m, *w, *band, points@, *config),
{
    let left = apply(m, points, band, config.sample_rate);
    rms_of(m, w, left.as_slice())
}

/// A band and its score.
#[derive(Clone, Copy)]
struct Scored {
    band: FilterBand,
    score: F32,
}

fn try_candidate<C: Fn(Calc) -> F32, W: Fn(Wide) -> F64>(
    m: &Arith<C>,
    w: &WideArith<W>,
    best: Scored,
    candidate: FilterBand,
    points: &[ErrorPoint],
    config: &OptimiserConfig,
) -> (next: Scored)
    requires
        best.score == score_of(*m, *w, best.band, points@, *config),
    ensures
        next.band == better(*m, *w, best.band, candidate, points@, *config),
        next.score == score_of(*m, *w, next.band, points@, *config),
{
    let candidate_score = score(m, w, &candidate, points, config);
    if candidate_score.lt(best.score) {
        Scored { band: candidate, score: candidate_score }
    } else {
        best
    }
}

fn try_factor<C: Fn(Calc) -> F32, W: Fn(Wide) -> F64>(
    m: &Arith<C>,
    w: &WideArith<W>,
    best: Scored,
    band: FilterBand,
    factor: F32,
    points: &[ErrorPoint],
    config: &OptimiserConfig,
) -> (next: Scored)
    requires
        best.score == score_of(*m, *w, best.band, points@, *config),
    ensures
        next.band == tried(*m, *w, best.band, band, factor, points@, *config),
        next.score == score_of(*m, *w, next.band, points@, *config),
{
    let first = try_candidate(m, w, best, moved_hz(m, band, factor, config), points, config);
    let second = try_candidate(m, w, first, moved_q(m, band, factor, config), points, config);
    try_candidate(m, w, second, moved_gain(m, band, factor, config), points, config)
}

/// Coordinate descent over frequency, quality factor and gain.
///
/// Deterministic: two runs on the same measurement produce the same filters.
fn refine<C: Fn(Calc) -> F32, W: Fn(Wide) -> F64>(
    m: &Arith<C>,
    w: &WideArith<W>,
    start: FilterBand,
    points: &[ErrorPoint],
    config: &OptimiserConfig,
) -> (band: FilterBand)
    ensures
        band == refined(*m, *w, start, points@, *config, ROUNDS as nat),
{
    let mut band = start;
    let mut step = num(ONE);
    let mut round: usize = 0;
    while round < ROUNDS
        invariant
            round <= ROUNDS,
            step == step_of(*m, round as nat),
            band == refined(*m, *w, start, points@, *config, round as nat),
        decreases ROUNDS - round,
    {
        let best = Scored { band, score: score(m, w, &band, points, config) };
        let far_down = m.minus(num(ONE), m.times(num(LONG_STEP), step));
        let down = m.minus(num(ONE), m.times(num(SHORT_STEP), step));
        let up = m.plus(num(ONE), m.times(num(SHORT_STEP), step));
        let far_up = m.plus(num(ONE), m.times(num(LONG_STEP), step));
        let first = try_factor(m, w, best, band, far_down, points, config);
        let second = try_factor(m, w, first, band, down, points, config);
        let third = try_factor(m, w, second, band, up, points, config);
        let last = try_factor(m, w, third, band, far_up, points, config);
        band = last.band;
        step = m.times(step, num(HALF));
        round = round + 1;
    }
    band
}

/// Guess a quality factor from how wide the feature is.
///
/// Walks outwards from the peak until the error falls to half of it. A guess is
/// enough, because refinement moves it.
fn estimate_q<C: Fn(Calc) -> F32>(
    m: &Arith<C>,
    points: &[ErrorPoint],
    peak_hz: F32,
    peak_error: F32,
    config: &OptimiserConfig,
) -> (q: F32)
    requires
        points@.len() > 0,
    ensures
        q == estimated_q(*m, points@, peak_hz, peak_error, *config),
{
    let n: usize = points.len();
    let mut at: usize = 0;
    while at < n && !peak_hz.le(points[at].hz)
        invariant
            n == points@.len(),
            at <= n,
            first_reaching(points@, peak_hz, 0) == first_reaching(points@, peak_hz, at as int),
        decreases n - at,
    {
        at = at + 1;
    }
    if at == n {
        at = 0;
    }
    let mut low = points[0].hz;
    let mut below: usize = at;
    let mut found = false;
    while below > 0 && !found
        invariant
            n == points@.len(),
            n > 0,
            below <= at <= n,
            low_edge(*m, points@, peak_error, at as int) == if found {
                low
            } else {
                low_edge(*m, points@, peak_error, below as int)
            },
            !found ==> low == points@[0].hz,
        decreases below,
    {
        let point = points[below - 1];
        if crossed(m, peak_error, point.error) {
            low = point.hz;
            found = true;
        }
        below = below - 1;
    }
    let mut high = points[n - 1].hz;
    let mut above: usize = at + 1;
    found = false;
    while above < n && !found
        invariant
            n == points@.len(),
            n > 0,
            at < n,
            at + 1 <= above,
            above <= n,
            high_edge(*m, points@, peak_error, at + 1) == if found {
                high
            } else {
                high_edge(*m, points@, peak_error, above as int)
            },
            !found ==> high == points@[n - 1].hz,
        decreases n - above,
    {
        let point = points[above];
        if crossed(m, peak_error, point.error) {
            high = point.hz;
            found = true;
        }
        above = above + 1;
    }
    q_between(m, low, high, config)
}

/// Place and refine one filter on the largest remaining error.
fn place_filter<C: Fn(Calc) -> F32, W: Fn(Wide) -> F64>(
    m: &Arith<C>,
    w: &WideArith<W>,
    points: &[ErrorPoint],
    config: &OptimiserConfig,
) -> (band: Option<FilterBand>)
    ensures
        band == placed(*m, *w, points@, *config),
{
    let mut values: Vec<F32> = Vec::new();
    let mut i: usize = 0;
    while i < points.len()
        invariant
            i <= points@.len(),
            values@.len() == i,
            forall|k: int| 0 <= k < i ==> #[trigger] values@[k] == points@[k].error,
        decreases points@.len() - i,
    {
        values.push(points[i].error);
        i = i + 1;
    }
    assert(values@ =~= errors(points@));
    let sizes = magnitudes_of(values.as_slice());
    match find_last_peak(sizes.as_slice()) {
        None => None,
        Some(at) => {
            let top = points[at];
            if top.error.abs().lt(config.threshold_db) {
                return None;
            }
            let start = FilterBand {
                kind: FilterKind::Peaking,
                hz: top.hz,
                gain_db: starting_gain(top.error, config),
                q: estimate_q(m, points, top.hz, top.error, config),
                enabled: true,
            };
            let band = refine(m, w, start, points, config);
            // Refinement can shrink a filter to nothing if the feature was noise.
            if num(LEAST_GAIN_DB).le(band.gain_db.abs()) {
                Some(band)
            } else {
                None
            }
        },
    }
}

/// Fit filters to the gap between `measured_db` and `target`.
///
/// `frequencies` and `measured_db` are read pairwise up to the shorter of the two.
/// Frequencies are expected to ascend and be evenly spaced per octave, because every
/// point then carries roughly equal weight per octave.
pub fn optimise<C: Fn(Calc) -> F32, W: Fn(Wide) -> F64>(
    m: &Arith<C>,
    w: &WideArith<W>,
    frequencies: &[F32],
    measured_db: &[F32],
    target: &TargetCurve,
    config: &OptimiserConfig,
) -> (fit: Optimisation)
    ensures
        ({
            let usable = config.usable(*m);
            let n = target::shorter(frequencies@.len(), measured_db@.len());
            let points = residual(*m, frequencies@, measured_db@, target@, usable, n);
            let all = fitted(*m, *w, points, usable, usable.max_filters as nat);
            if points.len() == 0 {
                fit.bands@ == Seq::<FilterBand>::empty() && fit.initial_error_db == num(ZERO)
                    && fit.final_error_db == num(ZERO)
            } else {
                fit.bands@ == all.bands && fit.initial_error_db == rms(*m, *w, points)
                    && fit.final_error_db == rms(*m, *w, all.points)
            }
        }),
        fit.bands@.len() <= config.usable(*m).max_filters,
        config.usable(*m).from_hz.at_most(config.usable(*m).to_hz) ==> forall|i: int|
            0 <= i < fit.bands@.len() ==> within(#[trigger] fit.bands@[i], config.usable(*m)),
        forall|i: int|
            0 <= i < fit.bands@.len() ==> num(LEAST_GAIN_DB).at_most(
                (#[trigger] fit.bands@[i]).gain_db.spec_abs(),
            ),
        meets(*m, frequencies@, measured_db@, target@) && num(ZERO).less(
            config.usable(*m).threshold_db,
        ) ==> fit.bands@.len() == 0,
{
    let ghost asked = *config;
    let config = config.validated(m);
    let n: usize = if frequencies.len() <= measured_db.len() {
        frequencies.len()
    } else {
        measured_db.len()
    };
    let mut points: Vec<ErrorPoint> = Vec::new();
    let mut i: usize = 0;
    while i < n
        invariant
            i <= n,
            n <= frequencies@.len(),
            n <= measured_db@.len(),
            points@ == residual(*m, frequencies@, measured_db@, target@, config, i as nat),
        decreases n - i,
    {
        let hz = frequencies[i];
        let measured = measured_db[i];
        if corrects(&config, hz, measured) {
            points.push(ErrorPoint { hz, error: m.minus(measured, target.db_at(m, hz)) });
        }
        i = i + 1;
    }
    if points.len() == 0 {
        return Optimisation::default();
    }
    let ghost start = points@;
    let initial_error_db = rms_of(m, w, points.as_slice());
    let mut bands: Vec<FilterBand> = Vec::new();
    let mut rounds: usize = 0;
    let mut done = false;
    while rounds < config.max_filters && !done
        invariant
            rounds <= config.max_filters,
            fitted(*m, *w, start, config, rounds as nat) == (FitModel {
                points: points@,
                bands: bands@,
            }),
            done ==> placed(*m, *w, points@, config) is None,
        decreases config.max_filters - rounds,
    {
        match place_filter(m, w, points.as_slice(), &config) {
            None => {
                done = true;
            },
            Some(band) => {
                points = apply(m, points.as_slice(), &band, config.sample_rate);
                bands.push(band);
            },
        }
        rounds = rounds + 1;
    }
    proof {
        if done {
            lemma_fit_stays_done(*m, *w, start, config, rounds as nat, config.max_filters as nat);
        }
        lemma_fit_is_bounded(*m, *w, start, config, config.max_filters as nat);
        if meets(*m, frequencies@, measured_db@, target@) && num(ZERO).less(config.threshold_db) {
            lemma_on_target_needs_no_filter(
                *m,
                *w,
                frequencies@,
                measured_db@,
                target@,
                config,
                config.max_filters as nat,
            );
        }
        if config.from_hz.at_most(config.to_hz) {
            lemma_usable_is_ordered(asked, *m);
            lemma_residual_in_band(*m, frequencies@, measured_db@, target@, config, n as nat);
            lemma_filters_keep_to_limits(*m, *w, start, config, config.max_filters as nat);
        }
    }
    let final_error_db = rms_of(m, w, points.as_slice());
    Optimisation { bands, initial_error_db, final_error_db }
}

proof fn lemma_fit_is_bounded<C: Fn(Calc) -> F32, W: Fn(Wide) -> F64>(
    m: Arith<C>,
    w: WideArith<W>,
    points: Seq<ErrorPoint>,
    config: OptimiserConfig,
    n: nat,
)
    ensures
        fitted(m, w, points, config, n).bands.len() <= n,
        forall|i: int|
            0 <= i < fitted(m, w, points, config, n).bands.len() ==> num(LEAST_GAIN_DB).at_most(
                (#[trigger] fitted(m, w, points, config, n).bands[i]).gain_db.spec_abs(),
            ),
    decreases n,
{
    if n > 0 {
        lemma_fit_is_bounded(m, w, points, config, (n - 1) as nat);
        let before = fitted(m, w, points, config, (n - 1) as nat).bands;
        let here = fitted(m, w, points, config, n).bands;
        assert forall|i: int| 0 <= i < here.len() implies num(LEAST_GAIN_DB).at_most(
            (#[trigger] here[i]).gain_db.spec_abs(),
        ) by {
            if i < before.len() {
                assert(here[i] == before[i]);
            }
        }
    }
}

proof fn lemma_fit_stays_done<C: Fn(Calc) -> F32, W: Fn(Wide) -> F64>(
    m: Arith<C>,
    w: WideArith<W>,
    points: Seq<ErrorPoint>,
    config: OptimiserConfig,
    n: nat,
    more: nat,
)
    requires
        n <= more,
        placed(m, w, fitted(m, w, points, config, n).points, config) is None,
    ensures
        fitted(m, w, points, config, more) == fitted(m, w, points, config, n),
    decreases more,
{
    if n < more {
        lemma_fit_stays_done(m, w, points, config, n, (more - 1) as nat);
    }
}

/// Whether a filter keeps to the constraints: a peaking band whose frequency, quality
/// factor and gain, wherever they are numbers, lie within the limits.
pub open spec fn within(band: FilterBand, config: OptimiserConfig) -> bool {
    &&& band.kind == FilterKind::Peaking
    &&& band.enabled
    &&& !band.hz.nan() ==> config.from_hz.at_most(band.hz) && band.hz.at_most(config.to_hz)
    &&& !band.q.nan() ==> config.min_q.at_most(band.q) && band.q.at_most(config.max_q)
    &&& !band.gain_db.nan() ==> config.max_cut_db.spec_negated().at_most(band.gain_db)
        && band.gain_db.at_most(config.max_boost_db)
}

/// Whether limits are in order.
pub open spec fn ordered(config: OptimiserConfig) -> bool {
    &&& config.from_hz.at_most(config.to_hz)
    &&& config.min_q.at_most(config.max_q)
    &&& num(ZERO).at_most(config.max_boost_db)
    &&& num(ZERO).at_most(config.max_cut_db)
}

/// A usable configuration has its limits in order, if its band has.
pub proof fn lemma_usable_is_ordered<C: Fn(Calc) -> F32>(config: OptimiserConfig, m: Arith<C>)
    requires
        config.usable(m).from_hz.at_most(config.usable(m).to_hz),
    ensures
        ordered(config.usable(m)),
        config.usable(m).max_filters <= MOST_FILTERS,
{
}

/// Whether every point lies in the band.
pub open spec fn in_band(points: Seq<ErrorPoint>, config: OptimiserConfig) -> bool {
    forall|i: int|
        0 <= i < points.len() ==> config.from_hz.at_most((#[trigger] points[i]).hz)
            && points[i].hz.at_most(config.to_hz)
}

/// The residual holds nothing outside the band.
pub proof fn lemma_residual_in_band<C: Fn(Calc) -> F32>(
    m: Arith<C>,
    frequencies: Seq<F32>,
    measured_db: Seq<F32>,
    target: TargetModel,
    config: OptimiserConfig,
    n: nat,
)
    ensures
        in_band(residual(m, frequencies, measured_db, target, config, n), config),
    decreases n,
{
    if n > 0 {
        lemma_residual_in_band(m, frequencies, measured_db, target, config, (n - 1) as nat);
        let before = residual(m, frequencies, measured_db, target, config, (n - 1) as nat);
        let here = residual(m, frequencies, measured_db, target, config, n);
        assert forall|i: int| 0 <= i < here.len() implies config.from_hz.at_most(
            (#[trigger] here[i]).hz,
        ) && here[i].hz.at_most(config.to_hz) by {
            if i < before.len() {
                assert(here[i] == before[i]);
            }
        }
    }
}

proof fn lemma_tried_within<C: Fn(Calc) -> F32, W: Fn(Wide) -> F64>(
    m: Arith<C>,
    w: WideArith<W>,
    best: FilterBand,
    band: FilterBand,
    factor: F32,
    points: Seq<ErrorPoint>,
    config: OptimiserConfig,
)
    requires
        ordered(config),
        within(best, config),
        within(band, config),
    ensures
        within(tried(m, w, best, band, factor, points, config), config),
{
    assert(within(moved_hz(&m, band, factor, &config), config));
    assert(within(moved_q(&m, band, factor, &config), config));
    assert(within(moved_gain(&m, band, factor, &config), config));
}

proof fn lemma_refined_within<C: Fn(Calc) -> F32, W: Fn(Wide) -> F64>(
    m: Arith<C>,
    w: WideArith<W>,
    band: FilterBand,
    points: Seq<ErrorPoint>,
    config: OptimiserConfig,
    n: nat,
)
    requires
        ordered(config),
        within(band, config),
    ensures
        within(refined(m, w, band, points, config, n), config),
    decreases n,
{
    if n > 0 {
        lemma_refined_within(m, w, band, points, config, (n - 1) as nat);
        let here = refined(m, w, band, points, config, (n - 1) as nat);
        let step = step_of(m, (n - 1) as nat);
        let far_down = m.minus(num(ONE), m.times(num(LONG_STEP), step));
        let down = m.minus(num(ONE), m.times(num(SHORT_STEP), step));
        let up = m.plus(num(ONE), m.times(num(SHORT_STEP), step));
        let far_up = m.plus(num(ONE), m.times(num(LONG_STEP), step));
        let first = tried(m, w, here, here, far_down, points, config);
        lemma_tried_within(m, w, here, here, far_down, points, config);
        let second = tried(m, w, first, here, down, points, config);
        lemma_tried_within(m, w, first, here, down, points, config);
        let third = tried(m, w, second, here, up, points, config);
        lemma_tried_within(m, w, second, here, up, points, config);
        lemma_tried_within(m, w, third, here, far_up, points, config);
    }
}

/// Every filter of a fit keeps to the constraints, boosts to the cap on boost and
/// cuts to the cap on cut, and there are no more of them than were asked for.
pub proof fn lemma_filters_keep_to_limits<C: Fn(Calc) -> F32, W: Fn(Wide) -> F64>(
    m: Arith<C>,
    w: WideArith<W>,
    points: Seq<ErrorPoint>,
    config: OptimiserConfig,
    n: nat,
)
    requires
        ordered(config),
        in_band(points, config),
    ensures
        fitted(m, w, points, config, n).bands.len() <= n,
        forall|i: int|
            0 <= i < fitted(m, w, points, config, n).bands.len() ==> within(
                #[trigger] fitted(m, w, points, config, n).bands[i],
                config,
            ),
        in_band(fitted(m, w, points, config, n).points, config),
    decreases n,
{
    if n > 0 {
        lemma_filters_keep_to_limits(m, w, points, config, (n - 1) as nat);
        let before = fitted(m, w, points, config, (n - 1) as nat);
        let here = fitted(m, w, points, config, n);
        if before.points.len() > 0 && placed(m, w, before.points, config) is Some {
            let sizes = arith::magnitudes(errors(before.points));
            peak::lemma_there_is_a_last_peak(sizes);
            let at = peak::last_peak(sizes);
            assert(config.from_hz.at_most(before.points[at].hz));
            let start = starting_band(m, before.points, config);
            assert(within(start, config));
            lemma_refined_within(m, w, start, before.points, config, ROUNDS as nat);
            assert forall|i: int| 0 <= i < here.bands.len() implies within(
                #[trigger] here.bands[i],
                config,
            ) by {
                if i < before.bands.len() {
                    assert(here.bands[i] == before.bands[i]);
                }
            }
            assert forall|i: int| 0 <= i < here.points.len() implies config.from_hz.at_most(
                (#[trigger] here.points[i]).hz,
            ) && here.points[i].hz.at_most(config.to_hz) by {
                assert(here.points[i].hz == before.points[i].hz);
            }
        }
    }
}

/// Whether a factor makes numbers of numbers.
pub open spec fn keeps_numbers<C: Fn(Calc) -> F32>(m: Arith<C>, factor: F32) -> bool {
    forall|x: F32| !x.nan() ==> !(#[trigger] m.times(x, factor)).nan()
}

/// Whether the factors of round `n` make numbers of numbers.
pub open spec fn round_keeps_numbers<C: Fn(Calc) -> F32>(m: Arith<C>, n: nat) -> bool {
    let step = step_of(m, n);
    &&& keeps_numbers(m, m.minus(num(ONE), m.times(num(LONG_STEP), step)))
    &&& keeps_numbers(m, m.minus(num(ONE), m.times(num(SHORT_STEP), step)))
    &&& keeps_numbers(m, m.plus(num(ONE), m.times(num(SHORT_STEP), step)))
    &&& keeps_numbers(m, m.plus(num(ONE), m.times(num(LONG_STEP), step)))
}

/// Whether a fit gets no further than numbers: the factors of refinement make numbers
/// of numbers, and centre over bandwidth is a number wherever there is a bandwidth.
pub open spec fn stays_with_numbers<C: Fn(Calc) -> F32>(m: Arith<C>) -> bool {
    &&& forall|n: nat| n < ROUNDS ==> #[trigger] round_keeps_numbers(m, n)
    &&& forall|low: F32, high: F32|
        num(ZERO).less(low) && low.less(high) && high.finite() ==> !(#[trigger] m.over(
            m.root(m.times(low, high)),
            m.minus(high, low),
        )).nan()
}

/// Whether everything about a filter is a number.
pub open spec fn numeric(band: FilterBand) -> bool {
    !band.hz.nan() && !band.q.nan() && !band.gain_db.nan()
}

proof fn lemma_tried_numeric<C: Fn(Calc) -> F32, W: Fn(Wide) -> F64>(
    m: Arith<C>,
    w: WideArith<W>,
    best: FilterBand,
    band: FilterBand,
    factor: F32,
    points: Seq<ErrorPoint>,
    config: OptimiserConfig,
)
    requires
        ordered(config),
        numeric(best),
        numeric(band),
        keeps_numbers(m, factor),
    ensures
        numeric(tried(m, w, best, band, factor, points, config)),
{
    assert(numeric(moved_hz(&m, band, factor, &config))) by {
        assert(!m.times(band.hz, factor).nan());
    }
    assert(numeric(moved_q(&m, band, factor, &config))) by {
        assert(!m.times(band.q, factor).nan());
    }
    assert(numeric(moved_gain(&m, band, factor, &config))) by {
        assert(!m.times(band.gain_db, factor).nan());
    }
}

proof fn lemma_refined_numeric<C: Fn(Calc) -> F32, W: Fn(Wide) -> F64>(
    m: Arith<C>,
    w: WideArith<W>,
    band: FilterBand,
    points: Seq<ErrorPoint>,
    config: OptimiserConfig,
    n: nat,
)
    requires
        ordered(config),
        numeric(band),
        stays_with_numbers(m),
        n <= ROUNDS,
    ensures
        numeric(refined(m, w, band, points, config, n)),
    decreases n,
{
    if n > 0 {
        lemma_refined_numeric(m, w, band, points, config, (n - 1) as nat);
        assert(round_keeps_numbers(m, (n - 1) as nat));
        let here = refined(m, w, band, points, config, (n - 1) as nat);
        let step = step_of(m, (n - 1) as nat);
        let far_down = m.minus(num(ONE), m.times(num(LONG_STEP), step));
        let down = m.minus(num(ONE), m.times(num(SHORT_STEP), step));
        let up = m.plus(num(ONE), m.times(num(SHORT_STEP), step));
        let far_up = m.plus(num(ONE), m.times(num(LONG_STEP), step));
        let first = tried(m, w, here, here, far_down, points, config);
        lemma_tried_numeric(m, w, here, here, far_down, points, config);
        let second = tried(m, w, first, here, down, points, config);
        lemma_tried_numeric(m, w, first, here, down, points, config);
        let third = tried(m, w, second, here, up, points, config);
        lemma_tried_numeric(m, w, second, here, up, points, config);
        lemma_tried_numeric(m, w, third, here, far_up, points, config);
    }
}

proof fn lemma_first_reaching_is_a_place(points: Seq<ErrorPoint>, hz: F32, from: int)
    requires
        points.len() > 0,
        0 <= from,
    ensures
        0 <= first_reaching(points, hz, from) < points.len(),
    decreases points.len() - from,
{
    if from < points.len() && !hz.le(points[from].hz) {
        lemma_first_reaching_is_a_place(points, hz, from + 1);
    }
}

proof fn lemma_low_edge_in_band<C: Fn(Calc) -> F32>(
    m: Arith<C>,
    points: Seq<ErrorPoint>,
    peak_error: F32,
    at: int,
    config: OptimiserConfig,
)
    requires
        points.len() > 0,
        at <= points.len(),
        in_band(points, config),
    ensures
        config.from_hz.at_most(low_edge(m, points, peak_error, at)),
        low_edge(m, points, peak_error, at).at_most(config.to_hz),
    decreases at,
{
    assert(config.from_hz.at_most(points[0].hz));
    if at > 0 {
        assert(config.from_hz.at_most(points[at - 1].hz));
        lemma_low_edge_in_band(m, points, peak_error, at - 1, config);
    }
}

proof fn lemma_high_edge_in_band<C: Fn(Calc) -> F32>(
    m: Arith<C>,
    points: Seq<ErrorPoint>,
    peak_error: F32,
    at: int,
    config: OptimiserConfig,
)
    requires
        points.len() > 0,
        0 <= at,
        in_band(points, config),
    ensures
        config.from_hz.at_most(high_edge(m, points, peak_error, at)),
        high_edge(m, points, peak_error, at).at_most(config.to_hz),
    decreases points.len() - at,
{
    assert(config.from_hz.at_most(points[points.len() - 1].hz));
    if at < points.len() {
        assert(config.from_hz.at_most(points[at].hz));
        lemma_high_edge_in_band(m, points, peak_error, at + 1, config);
    }
}

proof fn lemma_starting_band_numeric<C: Fn(Calc) -> F32>(
    m: Arith<C>,
    points: Seq<ErrorPoint>,
    config: OptimiserConfig,
)
    requires
        ordered(config),
        num(ZERO).less(config.from_hz),
        config.to_hz.finite(),
        in_band(points, config),
        points.len() > 0,
        stays_with_numbers(m),
    ensures
        numeric(starting_band(m, points, config)),
{
    let sizes = arith::magnitudes(errors(points));
    peak::lemma_there_is_a_last_peak(sizes);
    let top = points[peak::last_peak(sizes)];
    assert(config.from_hz.at_most(top.hz));
    let at = first_reaching(points, top.hz, 0);
    lemma_first_reaching_is_a_place(points, top.hz, 0);
    let low = low_edge(m, points, top.error, at);
    let high = high_edge(m, points, top.error, at + 1);
    lemma_low_edge_in_band(m, points, top.error, at, config);
    lemma_high_edge_in_band(m, points, top.error, at + 1, config);
    assert(high.finite());
    if low.less(high) {
        assert(!m.over(m.root(m.times(low, high)), m.minus(high, low)).nan());
    }
    assert(!q_between(&m, low, high, &config).nan());
}

/// Everything about every filter of a fit is a number, and so lies within the limits,
/// wherever the arithmetic makes numbers of the numbers that a fit begins with.
pub proof fn lemma_filters_are_numbers<C: Fn(Calc) -> F32, W: Fn(Wide) -> F64>(
    m: Arith<C>,
    w: WideArith<W>,
    points: Seq<ErrorPoint>,
    config: OptimiserConfig,
    n: nat,
)
    requires
        ordered(config),
        num(ZERO).less(config.from_hz),
        config.to_hz.finite(),
        in_band(points, config),
        stays_with_numbers(m),
    ensures
        forall|i: int|
            0 <= i < fitted(m, w, points, config, n).bands.len() ==> numeric(
                #[trigger] fitted(m, w, points, config, n).bands[i],
            ) && within(fitted(m, w, points, config, n).bands[i], config),
    decreases n,
{
    lemma_filters_keep_to_limits(m, w, points, config, n);
    if n > 0 {
        lemma_filters_are_numbers(m, w, points, config, (n - 1) as nat);
        lemma_filters_keep_to_limits(m, w, points, config, (n - 1) as nat);
        let before = fitted(m, w, points, config, (n - 1) as nat);
        let here = fitted(m, w, points, config, n);
        if placed(m, w, before.points, config) is Some {
            lemma_starting_band_numeric(m, before.points, config);
            let start = starting_band(m, before.points, config);
            lemma_refined_numeric(m, w, start, before.points, config, ROUNDS as nat);
            assert forall|i: int| 0 <= i < here.bands.len() implies numeric(
                #[trigger] here.bands[i],
            ) by {
                if i < before.bands.len() {
                    assert(here.bands[i] == before.bands[i]);
                }
            }
        }
    }
}

/// Refinement never makes a filter worse: the residual it leaves is at most that of
/// the filter it began with, if that is a number.
pub proof fn lemma_refinement_never_worsens<C: Fn(Calc) -> F32, W: Fn(Wide) -> F64>(
    m: Arith<C>,
    w: WideArith<W>,
    band: FilterBand,
    points: Seq<ErrorPoint>,
    config: OptimiserConfig,
    n: nat,
)
    requires
        !score_of(m, w, band, points, config).nan(),
    ensures
        score_of(m, w, refined(m, w, band, points, config, n), points, config).at_most(
            score_of(m, w, band, points, config),
        ),
    decreases n,
{
    if n > 0 {
        lemma_refinement_never_worsens(m, w, band, points, config, (n - 1) as nat);
        let here = refined(m, w, band, points, config, (n - 1) as nat);
        let step = step_of(m, (n - 1) as nat);
        let far_down = m.minus(num(ONE), m.times(num(LONG_STEP), step));
        let down = m.minus(num(ONE), m.times(num(SHORT_STEP), step));
        let up = m.plus(num(ONE), m.times(num(SHORT_STEP), step));
        let far_up = m.plus(num(ONE), m.times(num(LONG_STEP), step));
        let first = tried(m, w, here, here, far_down, points, config);
        lemma_trying_never_worsens(m, w, here, here, far_down, points, config);
        let second = tried(m, w, first, here, down, points, config);
        lemma_trying_never_worsens(m, w, first, here, down, points, config);
        let third = tried(m, w, second, here, up, points, config);
        lemma_trying_never_worsens(m, w, second, here, up, points, config);
        lemma_trying_never_worsens(m, w, third, here, far_up, points, config);
    }
}

proof fn lemma_trying_never_worsens<C: Fn(Calc) -> F32, W: Fn(Wide) -> F64>(
    m: Arith<C>,
    w: WideArith<W>,
    best: FilterBand,
    band: FilterBand,
    factor: F32,
    points: Seq<ErrorPoint>,
    config: OptimiserConfig,
)
    requires
        !score_of(m, w, best, points, config).nan(),
    ensures
        score_of(m, w, tried(m, w, best, band, factor, points, config), points, config).at_most(
            score_of(m, w, best, points, config),
        ),
{
    let first = better(m, w, best, moved_hz(&m, band, factor, &config), points, config);
    let second = better(m, w, first, moved_q(&m, band, factor, &config), points, config);
    assert(score_of(m, w, first, points, config).at_most(score_of(m, w, best, points, config)));
    assert(score_of(m, w, second, points, config).at_most(score_of(m, w, first, points, config)));
}

/// What a fit has to remove is, at each frequency inside the band and at no other, how
/// far the measurement lies above the target: above its shape and its offset together.
pub proof fn lemma_residual_is_the_gap<C: Fn(Calc) -> F32>(
    m: Arith<C>,
    frequencies: Seq<F32>,
    measured_db: Seq<F32>,
    target: TargetModel,
    config: OptimiserConfig,
    n: nat,
) -> (places: Seq<int>)
    ensures
        choice::is_choice(
            places,
            n as int,
            |k: int|
                config.from_hz.at_most(frequencies[k]) && frequencies[k].at_most(config.to_hz)
                    && frequencies[k].finite() && measured_db[k].finite(),
        ),
        residual(m, frequencies, measured_db, target, config, n).len() == places.len(),
        forall|i: int|
            0 <= i < places.len() ==> {
                let point = #[trigger] residual(m, frequencies, measured_db, target, config, n)[i];
                let hz = frequencies[places[i]];
                &&& point.hz == hz
                &&& point.error == m.minus(
                    measured_db[places[i]],
                    m.plus(target.shape.level(m, hz), target.offset_db),
                )
            },
    decreases n,
{
    let keep = |k: int|
        config.from_hz.at_most(frequencies[k]) && frequencies[k].at_most(config.to_hz)
            && frequencies[k].finite() && measured_db[k].finite();
    if n == 0 {
        Seq::empty()
    } else {
        let before = lemma_residual_is_the_gap(
            m,
            frequencies,
            measured_db,
            target,
            config,
            (n - 1) as nat,
        );
        choice::lemma_choice_goes_on(before, n - 1, keep);
        if keep(n - 1) {
            before.push(n - 1)
        } else {
            before
        }
    }
}

/// Whether a measurement lies on a target, its offset included, at every frequency, and
/// what lies on it is no distance from it.
pub open spec fn meets<C: Fn(Calc) -> F32>(
    m: Arith<C>,
    frequencies: Seq<F32>,
    measured_db: Seq<F32>,
    target: TargetModel,
) -> bool {
    forall|i: int|
        0 <= i < frequencies.len() && i < measured_db.len() ==> {
            let level = m.plus(
                target.shape.level(m, #[trigger] frequencies[i]),
                target.offset_db,
            );
            measured_db[i] == level && m.minus(level, level).same(num(ZERO))
        }
}

/// A measurement that lies on the target is left alone: no error is anything but zero,
/// and no filter is placed.
pub proof fn lemma_on_target_needs_no_filter<C: Fn(Calc) -> F32, W: Fn(Wide) -> F64>(
    m: Arith<C>,
    w: WideArith<W>,
    frequencies: Seq<F32>,
    measured_db: Seq<F32>,
    target: TargetModel,
    config: OptimiserConfig,
    filters: nat,
)
    requires
        meets(m, frequencies, measured_db, target),
        num(ZERO).less(config.threshold_db),
    ensures
        ({
            let n = target::shorter(frequencies.len(), measured_db.len());
            let points = residual(m, frequencies, measured_db, target, config, n);
            &&& forall|i: int|
                0 <= i < points.len() ==> (#[trigger] points[i]).error.same(num(ZERO))
            &&& fitted(m, w, points, config, filters) == (FitModel {
                points,
                bands: Seq::empty(),
            })
        }),
    decreases filters,
{
    let n = target::shorter(frequencies.len(), measured_db.len());
    let points = residual(m, frequencies, measured_db, target, config, n);
    let places = lemma_residual_is_the_gap(m, frequencies, measured_db, target, config, n);
    assert forall|i: int| 0 <= i < points.len() implies (#[trigger] points[i]).error.same(
        num(ZERO),
    ) by {
        let k = places[i];
        assert(0 <= k < n);
        assert(points[i].hz == frequencies[k]);
    }
    if filters > 0 {
        lemma_on_target_needs_no_filter(
            m,
            w,
            frequencies,
            measured_db,
            target,
            config,
            (filters - 1) as nat,
        );
        if points.len() > 0 {
            let sizes = arith::magnitudes(errors(points));
            peak::lemma_there_is_a_last_peak(sizes);
            let top = points[peak::last_peak(sizes)];
            assert(top.error.same(num(ZERO)));
            assert(top.error.spec_abs().less(config.threshold_db));
        }
    }
}

/// The error of a measurement that lies on the target is zero, where the arithmetic of
/// zeros is what it should be.
pub proof fn lemma_on_target_has_no_error<C: Fn(Calc) -> F32, W: Fn(Wide) -> F64>(
    m: Arith<C>,
    w: WideArith<W>,
    frequencies: Seq<F32>,
    measured_db: Seq<F32>,
    target: TargetModel,
    config: OptimiserConfig,
)
    requires
        meets(m, frequencies, measured_db, target),
        forall|e: F32|
            e.same(num(ZERO)) ==> #[trigger] w.times(w.widen(e), w.widen(e)) == wide(0),
        w.plus(wide(0), wide(0)) == wide(0),
        forall|n: u64| n > 0 ==> w.over(wide(0), #[trigger] w.count(n)) == wide(0),
        w.root(wide(0)) == wide(0),
        m.narrow(wide(0)) == num(ZERO),
        0 < residual(
            m,
            frequencies,
            measured_db,
            target,
            config,
            target::shorter(frequencies.len(), measured_db.len()),
        ).len() <= u64::MAX,
    ensures
        rms(
            m,
            w,
            residual(
                m,
                frequencies,
                measured_db,
                target,
                config,
                target::shorter(frequencies.len(), measured_db.len()),
            ),
        ) == num(ZERO),
{
    let n = target::shorter(frequencies.len(), measured_db.len());
    let points = residual(m, frequencies, measured_db, target, config, n);
    let places = lemma_residual_is_the_gap(m, frequencies, measured_db, target, config, n);
    assert forall|i: int| 0 <= i < points.len() implies (#[trigger] points[i]).error.same(
        num(ZERO),
    ) by {
        let k = places[i];
        assert(0 <= k < n);
        assert(points[i].hz == frequencies[k]);
    }
    lemma_no_errors_no_sum(w, points, points.len());
}

proof fn lemma_no_errors_no_sum<W: Fn(Wide) -> F64>(
    w: WideArith<W>,
    points: Seq<ErrorPoint>,
    n: nat,
)
    requires
        n <= points.len(),
        forall|e: F32|
            e.same(num(ZERO)) ==> #[trigger] w.times(w.widen(e), w.widen(e)) == wide(0),
        w.plus(wide(0), wide(0)) == wide(0),
        forall|i: int| 0 <= i < points.len() ==> (#[trigger] points[i]).error.same(num(ZERO)),
    ensures
        square_sum(w, points, n) == wide(0),
    decreases n,
{
    if n > 0 {
        lemma_no_errors_no_sum(w, points, (n - 1) as nat);
        assert(points[n - 1].error.same(num(ZERO)));
    }
}

/// Moving a measurement and the offset of its target together changes nothing: wherever
/// the distances between them stay as they were, so does what is left to correct, and
/// with it the whole fit.
pub proof fn lemma_moving_both_changes_nothing<C: Fn(Calc) -> F32>(
    m: Arith<C>,
    frequencies: Seq<F32>,
    measured_db: Seq<F32>,
    moved_db: Seq<F32>,
    target: TargetModel,
    moved: TargetModel,
    config: OptimiserConfig,
    n: nat,
)
    requires
        n <= frequencies.len(),
        moved.shape == target.shape,
        forall|i: int|
            0 <= i < n ==> (#[trigger] moved_db[i]).finite() == measured_db[i].finite() && m.minus(
                moved_db[i],
                m.plus(target.shape.level(m, frequencies[i]), moved.offset_db),
            ) == m.minus(
                measured_db[i],
                m.plus(target.shape.level(m, frequencies[i]), target.offset_db),
            ),
    ensures
        residual(m, frequencies, moved_db, moved, config, n) == residual(
            m,
            frequencies,
            measured_db,
            target,
            config,
            n,
        ),
    decreases n,
{
    if n > 0 {
        lemma_moving_both_changes_nothing(
            m,
            frequencies,
            measured_db,
            moved_db,
            target,
            moved,
            config,
            (n - 1) as nat,
        );
        let k = n - 1;
        assert(moved_db[k].finite() == measured_db[k].finite());
    }
}

/// A filter begins as a peak on the largest error that is left, the last of equals,
/// and undoes it as far as the caps allow. It is placed only where that error reaches
/// the threshold.
pub proof fn lemma_a_filter_begins_on_the_largest_error<C: Fn(Calc) -> F32, W: Fn(Wide) -> F64>(
    m: Arith<C>,
    w: WideArith<W>,
    points: Seq<ErrorPoint>,
    config: OptimiserConfig,
) -> (at: int)
    requires
        points.len() > 0,
    ensures
        0 <= at < points.len(),
        forall|j: int|
            0 <= j < points.len() ==> (#[trigger] points[j]).error.magnitude()
                <= points[at].error.magnitude() && (j > at ==> points[j].error.magnitude()
                < points[at].error.magnitude()),
        ({
            let band = starting_band(m, points, config);
            let error = points[at].error;
            &&& band.kind == FilterKind::Peaking
            &&& band.enabled
            &&& band.hz == points[at].hz
            &&& num(ZERO).less(error) && error.at_most(config.max_cut_db) ==> band.gain_db
                == error.spec_negated()
            &&& error.less(num(ZERO)) && error.spec_negated().at_most(config.max_boost_db)
                ==> band.gain_db == error.spec_negated()
            &&& num(ZERO).less(error) && config.max_cut_db.less(error) ==> band.gain_db
                == config.max_cut_db.spec_negated()
            &&& error.less(num(ZERO)) && config.max_boost_db.less(error.spec_negated())
                ==> band.gain_db == config.max_boost_db
        }),
        placed(m, w, points, config) is Some ==> !points[at].error.spec_abs().less(
            config.threshold_db,
        ),
{
    let sizes = arith::magnitudes(errors(points));
    peak::lemma_there_is_a_last_peak(sizes);
    let at = peak::last_peak(sizes);
    assert forall|j: int| 0 <= j < points.len() implies (#[trigger] points[j]).error.magnitude()
        <= points[at].error.magnitude() && (j > at ==> points[j].error.magnitude()
        < points[at].error.magnitude()) by {
        assert(sizes[j] == points[j].error.spec_abs());
        assert(sizes[j].total_rank() <= sizes[at].total_rank());
    }
    at
}

/// An error point once a filter is applied: as many decibels higher as the filter lifts
/// its frequency.
pub proof fn lemma_a_filter_adds_its_level<C: Fn(Calc) -> F32>(
    m: Arith<C>,
    points: Seq<ErrorPoint>,
    section: Biquad,
    sample_rate: F32,
    i: int,
)
    requires
        0 <= i < points.len(),
        num(ZERO).less(m.norm(section.spec_response_at(m, points[i].hz, sample_rate))),
    ensures
        applied(m, points, section, sample_rate).len() == points.len(),
        applied(m, points, section, sample_rate)[i].hz == points[i].hz,
        applied(m, points, section, sample_rate)[i].error == m.plus(
            points[i].error,
            m.times(
                num(TWENTY),
                m.log10(m.norm(section.spec_response_at(m, points[i].hz, sample_rate))),
            ),
        ),
{
}

/// The error of a fit is the root of the mean of the squares of what is left, at every
/// point.
pub proof fn lemma_error_is_the_root_mean_square<C: Fn(Calc) -> F32, W: Fn(Wide) -> F64>(
    m: Arith<C>,
    w: WideArith<W>,
    points: Seq<ErrorPoint>,
)
    ensures
        rms(m, w, points) == m.narrow(
            w.root(
                w.over(
                    arith::wide_total(
                        w,
                        Seq::new(
                            points.len(),
                            |i: int| w.times(w.widen(points[i].error), w.widen(points[i].error)),
                        ),
                    ),
                    w.count(points.len() as u64),
                ),
            ),
        ),
{
    lemma_sum_of_squares(w, points, points.len());
}

proof fn lemma_sum_of_squares<W: Fn(Wide) -> F64>(w: WideArith<W>, points: Seq<ErrorPoint>, n: nat)
    ensures
        square_sum(w, points, n) == arith::wide_total(
            w,
            Seq::new(n, |i: int| w.times(w.widen(points[i].error), w.widen(points[i].error))),
        ),
    decreases n,
{
    let square = |i: int| w.times(w.widen(points[i].error), w.widen(points[i].error));
    if n > 0 {
        lemma_sum_of_squares(w, points, (n - 1) as nat);
        assert(Seq::new(n, square).drop_last() =~= Seq::new((n - 1) as nat, square));
    }
}

/// A feature reaches down to the nearest point below its peak at which the error has
/// fallen to less than half of the peak's, or to the lowest point of all; and up likewise.
/// An error below zero has fallen where it is above half of the peak's.
pub proof fn lemma_edges_of_a_feature<C: Fn(Calc) -> F32>(
    m: Arith<C>,
    points: Seq<ErrorPoint>,
    peak_error: F32,
    at: int,
) -> (edges: (int, int))
    requires
        0 <= at < points.len(),
    ensures
        ({
            let (low, high) = edges;
            let half = m.over(peak_error, num(TWO));
            let fallen = |error: F32|
                if num(ZERO).less(peak_error) {
                    error.less(half)
                } else {
                    half.less(error)
                };
            &&& 0 <= low <= at
            &&& at <= high < points.len()
            &&& low_edge(m, points, peak_error, at) == points[low].hz
            &&& high_edge(m, points, peak_error, at + 1) == points[high].hz
            &&& low == 0 || (low < at && fallen(points[low].error))
            &&& high == points.len() - 1 || (high > at && fallen(points[high].error))
            &&& forall|i: int| low < i < at ==> !fallen((#[trigger] points[i]).error)
            &&& forall|i: int| at < i < high ==> !fallen((#[trigger] points[i]).error)
        }),
{
    (
        lemma_low_edge_place(m, points, peak_error, at),
        lemma_high_edge_place(m, points, peak_error, at + 1),
    )
}

proof fn lemma_low_edge_place<C: Fn(Calc) -> F32>(
    m: Arith<C>,
    points: Seq<ErrorPoint>,
    peak_error: F32,
    at: int,
) -> (low: int)
    requires
        0 <= at < points.len(),
    ensures
        0 <= low <= at,
        low_edge(m, points, peak_error, at) == points[low].hz,
        low == 0 || (low < at && crossed(&m, peak_error, points[low].error)),
        forall|i: int|
            low < i < at ==> !crossed(&m, peak_error, (#[trigger] points[i]).error),
    decreases at,
{
    if at == 0 {
        0
    } else if crossed(&m, peak_error, points[at - 1].error) {
        at - 1
    } else {
        lemma_low_edge_place(m, points, peak_error, at - 1)
    }
}

proof fn lemma_high_edge_place<C: Fn(Calc) -> F32>(
    m: Arith<C>,
    points: Seq<ErrorPoint>,
    peak_error: F32,
    from: int,
) -> (high: int)
    requires
        1 <= from <= points.len(),
    ensures
        from - 1 <= high < points.len(),
        high_edge(m, points, peak_error, from) == points[high].hz,
        high == points.len() - 1 || (high >= from && crossed(
            &m,
            peak_error,
            points[high].error,
        )),
        forall|i: int|
            from <= i < high ==> !crossed(&m, peak_error, (#[trigger] points[i]).error),
    decreases points.len() - from,
{
    if from == points.len() {
        from - 1
    } else if crossed(&m, peak_error, points[from].error) {
        from
    } else {
        lemma_high_edge_place(m, points, peak_error, from + 1)
    }
}

/// A feature between two edges has the quality factor of its geometric centre over its
/// width, kept between the narrowest and the widest allowed.
pub proof fn lemma_quality_of_a_feature<C: Fn(Calc) -> F32>(
    m: Arith<C>,
    low: F32,
    high: F32,
    config: OptimiserConfig,
)
    requires
        num(ZERO).less(low),
        low.less(high),
    ensures
        q_between(&m, low, high, &config) == m.over(
            m.root(m.times(low, high)),
            m.minus(high, low),
        ).spec_clamp(config.min_q, config.max_q),
{
}

/// A step of refinement is no worse than the filter it began with, nor than any that it
/// tries: the frequency, the quality factor and the gain taken up and down by a long and
/// a short step, one at a time and within the limits.
pub proof fn lemma_a_round_is_no_worse_than_its_candidates<
    C: Fn(Calc) -> F32,
    W: Fn(Wide) -> F64,
>(
    m: Arith<C>,
    w: WideArith<W>,
    band: FilterBand,
    step: F32,
    points: Seq<ErrorPoint>,
    config: OptimiserConfig,
    factor: F32,
    candidate: FilterBand,
)
    requires
        !score_of(m, w, band, points, config).nan(),
        !score_of(m, w, candidate, points, config).nan(),
        factor == m.minus(num(ONE), m.times(num(LONG_STEP), step)) || factor == m.minus(
            num(ONE),
            m.times(num(SHORT_STEP), step),
        ) || factor == m.plus(num(ONE), m.times(num(SHORT_STEP), step)) || factor == m.plus(
            num(ONE),
            m.times(num(LONG_STEP), step),
        ),
        candidate == (FilterBand {
            hz: m.times(band.hz, factor).spec_clamp(config.from_hz, config.to_hz),
            ..band
        }) || candidate == (FilterBand {
            q: m.times(band.q, factor).spec_clamp(config.min_q, config.max_q),
            ..band
        }) || candidate == (FilterBand {
            gain_db: m.times(band.gain_db, factor).spec_clamp(
                config.max_cut_db.spec_negated(),
                config.max_boost_db,
            ),
            ..band
        }),
    ensures
        score_of(m, w, round_of(m, w, band, step, points, config), points, config).at_most(
            score_of(m, w, candidate, points, config),
        ),
        score_of(m, w, round_of(m, w, band, step, points, config), points, config).at_most(
            score_of(m, w, band, points, config),
        ),
{
    let far_down = m.minus(num(ONE), m.times(num(LONG_STEP), step));
    let down = m.minus(num(ONE), m.times(num(SHORT_STEP), step));
    let up = m.plus(num(ONE), m.times(num(SHORT_STEP), step));
    let far_up = m.plus(num(ONE), m.times(num(LONG_STEP), step));
    let first = tried(m, w, band, band, far_down, points, config);
    let second = tried(m, w, first, band, down, points, config);
    let third = tried(m, w, second, band, up, points, config);
    lemma_tried_is_no_worse(m, w, band, band, far_down, points, config, candidate);
    lemma_tried_is_no_worse(m, w, first, band, down, points, config, candidate);
    lemma_tried_is_no_worse(m, w, second, band, up, points, config, candidate);
    lemma_tried_is_no_worse(m, w, third, band, far_up, points, config, candidate);
}

proof fn lemma_tried_is_no_worse<C: Fn(Calc) -> F32, W: Fn(Wide) -> F64>(
    m: Arith<C>,
    w: WideArith<W>,
    best: FilterBand,
    band: FilterBand,
    factor: F32,
    points: Seq<ErrorPoint>,
    config: OptimiserConfig,
    candidate: FilterBand,
)
    requires
        !score_of(m, w, best, points, config).nan(),
        !score_of(m, w, candidate, points, config).nan(),
    ensures
        ({
            let after = tried(m, w, best, band, factor, points, config);
            let score = score_of(m, w, after, points, config);
            &&& score.at_most(score_of(m, w, best, points, config))
            &&& candidate == moved_hz(&m, band, factor, &config) || candidate == moved_q(
                &m,
                band,
                factor,
                &config,
            ) || candidate == moved_gain(&m, band, factor, &config) ==> score.at_most(
                score_of(m, w, candidate, points, config),
            )
        }),
{
    let first = better(m, w, best, moved_hz(&m, band, factor, &config), points, config);
    let second = better(m, w, first, moved_q(&m, band, factor, &config), points, config);
    let third = better(m, w, second, moved_gain(&m, band, factor, &config), points, config);
    assert(score_of(m, w, first, points, config).at_most(score_of(m, w, best, points, config)));
    assert(score_of(m, w, second, points, config).at_most(score_of(m, w, first, points, config)));
    assert(score_of(m, w, third, points, config).at_most(score_of(m, w, second, points, config)));
}

/// A configuration that the fit can use is used as it is.
pub proof fn lemma_usable_configuration_stays<C: Fn(Calc) -> F32>(
    config: OptimiserConfig,
    m: Arith<C>,
)
    requires
        config.max_filters <= MOST_FILTERS,
        config.from_hz.finite(),
        config.to_hz.finite(),
        config.min_q.finite(),
        config.max_q.finite(),
        config.threshold_db.finite(),
        config.sample_rate.finite(),
        num(ZERO).less(config.from_hz),
        config.from_hz.less(config.to_hz),
        num(ZERO).less(config.min_q),
        config.min_q.at_most(config.max_q),
        num(ZERO).at_most(config.max_boost_db),
        num(ZERO).at_most(config.max_cut_db),
        num(ZERO).at_most(config.threshold_db),
        num(ZERO).less(config.sample_rate),
    ensures
        config.usable(m) == config,
{
}

/// Whatever is asked for, a fit keeps to filters that can be: no more than the most, over
/// a positive frequency and quality factor, without a negative cap or threshold.
pub proof fn lemma_usable_configuration_is_sound<C: Fn(Calc) -> F32>(
    config: OptimiserConfig,
    m: Arith<C>,
)
    ensures
        ({
            let used = config.usable(m);
            &&& used.max_filters <= MOST_FILTERS
            &&& num(ZERO).less(used.from_hz)
            &&& num(ZERO).less(used.min_q)
            &&& num(ZERO).at_most(used.max_boost_db)
            &&& num(ZERO).at_most(used.max_cut_db)
            &&& num(ZERO).at_most(used.threshold_db)
            &&& num(ZERO).less(used.sample_rate)
            &&& used.min_q.at_most(used.max_q)
            &&& config.max_filters <= MOST_FILTERS ==> used.max_filters == config.max_filters
        }),
{
}

/// The quality factor that a filter begins with is that of the feature around its peak,
/// from the one edge to the other.
pub proof fn lemma_quality_comes_from_the_feature<C: Fn(Calc) -> F32>(
    m: Arith<C>,
    points: Seq<ErrorPoint>,
    peak_error: F32,
    config: OptimiserConfig,
    at: int,
) -> (edges: (int, int))
    requires
        0 <= at < points.len(),
        !points[at].hz.nan(),
        forall|i: int| 0 <= i < at ==> (#[trigger] points[i]).hz.less(points[at].hz),
    ensures
        ({
            let (low, high) = edges;
            let half = m.over(peak_error, num(TWO));
            let fallen = |error: F32|
                if num(ZERO).less(peak_error) {
                    error.less(half)
                } else {
                    half.less(error)
                };
            &&& 0 <= low <= at <= high < points.len()
            &&& low == 0 || (low < at && fallen(points[low].error))
            &&& high == points.len() - 1 || (high > at && fallen(points[high].error))
            &&& forall|i: int| low < i < at ==> !fallen((#[trigger] points[i]).error)
            &&& forall|i: int| at < i < high ==> !fallen((#[trigger] points[i]).error)
            &&& estimated_q(m, points, points[at].hz, peak_error, config) == q_between(
                &m,
                points[low].hz,
                points[high].hz,
                &config,
            )
        }),
{
    lemma_first_reaching_is(points, points[at].hz, 0, at);
    lemma_edges_of_a_feature(m, points, peak_error, at)
}

proof fn lemma_first_reaching_is(points: Seq<ErrorPoint>, hz: F32, from: int, at: int)
    requires
        0 <= from <= at < points.len(),
        hz.at_most(points[at].hz),
        forall|i: int| from <= i < at ==> (#[trigger] points[i]).hz.less(hz),
    ensures
        first_reaching(points, hz, from) == at,
    decreases at - from,
{
    if from < at {
        assert(points[from].hz.less(hz));
        lemma_first_reaching_is(points, hz, from + 1, at);
    }
}

/// A fit has no more filters than it may, and it ends early only where every error that
/// is left is below the threshold, or the filter for the largest would do next to nothing.
pub proof fn lemma_when_a_fit_ends<C: Fn(Calc) -> F32, W: Fn(Wide) -> F64>(
    m: Arith<C>,
    w: WideArith<W>,
    points: Seq<ErrorPoint>,
    config: OptimiserConfig,
    n: nat,
)
    ensures
        ({
            let end = fitted(m, w, points, config, n);
            let next = refined(
                m,
                w,
                starting_band(m, end.points, config),
                end.points,
                config,
                ROUNDS as nat,
            );
            &&& end.bands.len() <= n
            &&& end.bands.len() < n ==> (forall|i: int|
                0 <= i < end.points.len() ==> (#[trigger] end.points[i]).error.spec_abs().less(
                    config.threshold_db,
                )) || !num(LEAST_GAIN_DB).at_most(next.gain_db.spec_abs())
        }),
{
    let end = fitted(m, w, points, config, n).points;
    lemma_ended_fit_places_nothing(m, w, points, config, n);
    if end.len() > 0 {
        let sizes = arith::magnitudes(errors(end));
        peak::lemma_there_is_a_last_peak(sizes);
        let top = peak::last_peak(sizes);
        assert forall|i: int|
            0 <= i < end.len() && end[top].error.spec_abs().less(config.threshold_db) implies (
        #[trigger] end[i]).error.spec_abs().less(config.threshold_db) by {
            assert(sizes[i] == end[i].error.spec_abs());
            assert(sizes[i].total_rank() <= sizes[top].total_rank());
        }
    }
}

proof fn lemma_ended_fit_places_nothing<C: Fn(Calc) -> F32, W: Fn(Wide) -> F64>(
    m: Arith<C>,
    w: WideArith<W>,
    points: Seq<ErrorPoint>,
    config: OptimiserConfig,
    n: nat,
)
    ensures
        fitted(m, w, points, config, n).bands.len() <= n,
        fitted(m, w, points, config, n).bands.len() < n ==> placed(
            m,
            w,
            fitted(m, w, points, config, n).points,
            config,
        ) is None,
    decreases n,
{
    if n > 0 {
        lemma_ended_fit_places_nothing(m, w, points, config, (n - 1) as nat);
    }
}

/// What a fit leaves at a frequency is the error there, with the level of every filter
/// added, one after the other.
pub proof fn lemma_every_filter_is_applied<C: Fn(Calc) -> F32, W: Fn(Wide) -> F64>(
    m: Arith<C>,
    w: WideArith<W>,
    points: Seq<ErrorPoint>,
    config: OptimiserConfig,
    n: nat,
    i: int,
) -> (left: Seq<F32>)
    requires
        0 <= i < points.len(),
        forall|k: int|
            0 <= k < fitted(m, w, points, config, n).bands.len() ==> num(ZERO).less(
                m.norm(
                    (#[trigger] fitted(m, w, points, config, n).bands[k]).design(
                        &m,
                        config.sample_rate,
                    ).spec_response_at(m, points[i].hz, config.sample_rate),
                ),
            ),
    ensures
        ({
            let end = fitted(m, w, points, config, n);
            &&& end.points.len() == points.len()
            &&& end.points[i].hz == points[i].hz
            &&& left.len() == end.bands.len() + 1
            &&& left[0] == points[i].error
            &&& end.points[i].error == left.last()
            &&& forall|k: int|
                0 <= k < end.bands.len() ==> #[trigger] left[k + 1] == m.plus(
                    left[k],
                    m.times(
                        num(TWENTY),
                        m.log10(
                            m.norm(
                                end.bands[k].design(&m, config.sample_rate).spec_response_at(
                                    m,
                                    points[i].hz,
                                    config.sample_rate,
                                ),
                            ),
                        ),
                    ),
                )
        }),
    decreases n,
{
    if n == 0 {
        seq![points[i].error]
    } else {
        let before = fitted(m, w, points, config, (n - 1) as nat);
        let end = fitted(m, w, points, config, n);
        assert forall|k: int| 0 <= k < before.bands.len() implies num(ZERO).less(
            m.norm(
                (#[trigger] before.bands[k]).design(&m, config.sample_rate).spec_response_at(
                    m,
                    points[i].hz,
                    config.sample_rate,
                ),
            ),
        ) by {
            assert(end.bands[k] == before.bands[k]);
        }
        let earlier = lemma_every_filter_is_applied(m, w, points, config, (n - 1) as nat, i);
        match placed(m, w, before.points, config) {
            None => earlier,
            Some(band) => {
                assert(end.bands[before.bands.len() as int] == band);
                let left = earlier.push(end.points[i].error);
                assert forall|k: int| 0 <= k < end.bands.len() implies #[trigger] left[k + 1]
                    == m.plus(
                    left[k],
                    m.times(
                        num(TWENTY),
                        m.log10(
                            m.norm(
                                end.bands[k].design(&m, config.sample_rate).spec_response_at(
                                    m,
                                    points[i].hz,
                                    config.sample_rate,
                                ),
                            ),
                        ),
                    ),
                ) by {
                    if k < before.bands.len() {
                        assert(earlier[k + 1] == left[k + 1]);
                        assert(end.bands[k] == before.bands[k]);
                    }
                }
                left
            },
        }
    }
}

} // verus!

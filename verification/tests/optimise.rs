//! The filter fit, through the single-precision numbers it stands for.

use analyzer::arith::{Arith, Calc, Wide, WideArith};
use analyzer::dsp::eq::FilterKind;
use analyzer::dsp::optimise as fit;
use analyzer::dsp::{biquad, eq, target};
use analyzer::ieee::{F32, F64};
use analyzer::points::LevelPoint;
use rustfft::num_complex::Complex32;

/// The bit pattern of `x`.
pub fn number(x: f32) -> F32 {
    F32 { bits: x.to_bits() }
}

/// The number with the bit pattern `x`.
pub fn float(x: F32) -> f32 {
    f32::from_bits(x.bits)
}

/// The bit patterns of `xs`.
pub fn numbers(xs: &[f32]) -> Vec<F32> {
    xs.iter().copied().map(number).collect()
}

/// The numbers with the bit patterns `xs`.
pub fn floats(xs: &[F32]) -> Vec<f32> {
    xs.iter().copied().map(float).collect()
}

/// One step of single-precision arithmetic, by the machine's own operations.
pub fn calculate(step: Calc) -> F32 {
    number(match step {
        Calc::Plus(a, b) => float(a) + float(b),
        Calc::Minus(a, b) => float(a) - float(b),
        Calc::Times(a, b) => float(a) * float(b),
        Calc::Over(a, b) => float(a) / float(b),
        Calc::Root(a) => float(a).sqrt(),
        Calc::Sine(a) => float(a).sin(),
        Calc::Cosine(a) => float(a).cos(),
        Calc::Tangent(a) => float(a).tan(),
        Calc::Exp(a) => float(a).exp(),
        Calc::Ln(a) => float(a).ln(),
        Calc::Log2(a) => float(a).log2(),
        Calc::Log10(a) => float(a).log10(),
        Calc::Power(a, b) => float(a).powf(float(b)),
        Calc::Hypot(a, b) => float(a).hypot(float(b)),
        Calc::Angle(a, b) => float(a).atan2(float(b)),
        Calc::Degrees(a) => float(a).to_degrees(),
        Calc::Remainder(a, b) => float(a).rem_euclid(float(b)),
        Calc::Floor(a) => float(a).floor(),
        Calc::Count(n) => n as f32,
        Calc::Whole(n) => n as f32,
        Calc::Narrow(a) => double(a) as f32,
    })
}

/// The number with the bit pattern `x`.
pub fn double(x: F64) -> f64 {
    f64::from_bits(x.bits)
}

/// Single-precision arithmetic.
pub type Single = Arith<fn(Calc) -> F32>;

/// The machine's single-precision arithmetic.
pub fn single() -> Single {
    Arith::new(calculate)
}

/// The bit pattern of `x`.
pub fn wide_number(x: f64) -> F64 {
    F64 { bits: x.to_bits() }
}

/// One step of double-precision arithmetic, by the machine's own operations.
pub fn calculate_wide(step: Wide) -> F64 {
    wide_number(match step {
        Wide::Plus(a, b) => double(a) + double(b),
        Wide::Minus(a, b) => double(a) - double(b),
        Wide::Times(a, b) => double(a) * double(b),
        Wide::Over(a, b) => double(a) / double(b),
        Wide::Root(a) => double(a).sqrt(),
        Wide::Sine(a) => double(a).sin(),
        Wide::Exp(a) => double(a).exp(),
        Wide::Ln(a) => double(a).ln(),
        Wide::Count(n) => n as f64,
        Wide::Widen(a) => f64::from(float(a)),
    })
}

/// Double-precision arithmetic.
pub type Precise = WideArith<fn(Wide) -> F64>;

/// The machine's double-precision arithmetic.
pub fn precise() -> Precise {
    WideArith::new(calculate_wide)
}

/// A second-order section.
#[derive(Debug, Clone, Copy, PartialEq)]
pub struct Biquad {
    pub b0: f32,
    pub b1: f32,
    pub b2: f32,
    pub a1: f32,
    pub a2: f32,
    s1: f32,
    s2: f32,
}

impl From<biquad::Biquad> for Biquad {
    fn from(section: biquad::Biquad) -> Self {
        Self {
            b0: float(section.b0),
            b1: float(section.b1),
            b2: float(section.b2),
            a1: float(section.a1),
            a2: float(section.a2),
            s1: float(section.s1),
            s2: float(section.s2),
        }
    }
}

impl From<Biquad> for biquad::Biquad {
    fn from(section: Biquad) -> Self {
        Self {
            b0: number(section.b0),
            b1: number(section.b1),
            b2: number(section.b2),
            a1: number(section.a1),
            a2: number(section.a2),
            s1: number(section.s1),
            s2: number(section.s2),
        }
    }
}

impl Biquad {
    pub const IDENTITY: Self =
        Self { b0: 1.0, b1: 0.0, b2: 0.0, a1: 0.0, a2: 0.0, s1: 0.0, s2: 0.0 };

    pub fn new(b0: f32, b1: f32, b2: f32, a1: f32, a2: f32) -> Self {
        biquad::Biquad::new(number(b0), number(b1), number(b2), number(a1), number(a2)).into()
    }

    pub fn normalised(b0: f32, b1: f32, b2: f32, a0: f32, a1: f32, a2: f32) -> Self {
        biquad::Biquad::normalised(
            &single(),
            number(b0),
            number(b1),
            number(b2),
            number(a0),
            number(a1),
            number(a2),
        )
        .into()
    }

    pub fn process(&mut self, x: f32) -> f32 {
        let mut section = biquad::Biquad::from(*self);
        let y = section.process(&single(), number(x));
        *self = section.into();
        float(y)
    }

    pub fn process_block(&mut self, samples: &mut [f32]) {
        let mut section = biquad::Biquad::from(*self);
        let mut values = numbers(samples);
        section.process_block(&single(), &mut values);
        samples.copy_from_slice(&floats(&values));
        *self = section.into();
    }

    pub fn reset(&mut self) {
        let mut section = biquad::Biquad::from(*self);
        section.reset();
        *self = section.into();
    }

    pub fn response_at(&self, hz: f32, sample_rate: f32) -> Complex32 {
        let response =
            biquad::Biquad::from(*self).response_at(&single(), number(hz), number(sample_rate));
        Complex32::new(float(response.re), float(response.im))
    }

    pub fn magnitude_at(&self, hz: f32, sample_rate: f32) -> f32 {
        float(biquad::Biquad::from(*self).magnitude_at(&single(), number(hz), number(sample_rate)))
    }

    pub fn peaking(hz: f32, q: f32, gain_db: f32, sample_rate: f32) -> Self {
        let (hz, q, gain, rate) = (number(hz), number(q), number(gain_db), number(sample_rate));
        biquad::Biquad::peaking(&single(), hz, q, gain, rate).into()
    }

    pub fn low_shelf(hz: f32, q: f32, gain_db: f32, sample_rate: f32) -> Self {
        let (hz, q, gain, rate) = (number(hz), number(q), number(gain_db), number(sample_rate));
        biquad::Biquad::low_shelf(&single(), hz, q, gain, rate).into()
    }

    pub fn high_shelf(hz: f32, q: f32, gain_db: f32, sample_rate: f32) -> Self {
        let (hz, q, gain, rate) = (number(hz), number(q), number(gain_db), number(sample_rate));
        biquad::Biquad::high_shelf(&single(), hz, q, gain, rate).into()
    }

    pub fn low_pass(hz: f32, q: f32, sample_rate: f32) -> Self {
        biquad::Biquad::low_pass(&single(), number(hz), number(q), number(sample_rate)).into()
    }

    pub fn high_pass(hz: f32, q: f32, sample_rate: f32) -> Self {
        biquad::Biquad::high_pass(&single(), number(hz), number(q), number(sample_rate)).into()
    }

    pub fn band_pass(hz: f32, q: f32, sample_rate: f32) -> Self {
        biquad::Biquad::band_pass(&single(), number(hz), number(q), number(sample_rate)).into()
    }

    pub fn notch(hz: f32, q: f32, sample_rate: f32) -> Self {
        biquad::Biquad::notch(&single(), number(hz), number(q), number(sample_rate)).into()
    }

    pub fn all_pass(hz: f32, q: f32, sample_rate: f32) -> Self {
        biquad::Biquad::all_pass(&single(), number(hz), number(q), number(sample_rate)).into()
    }
}

/// One band of an equaliser.
#[derive(Debug, Clone, Copy, PartialEq)]
pub struct FilterBand {
    pub kind: FilterKind,
    pub hz: f32,
    pub gain_db: f32,
    pub q: f32,
    pub enabled: bool,
}

impl From<eq::FilterBand> for FilterBand {
    fn from(band: eq::FilterBand) -> Self {
        Self {
            kind: band.kind,
            hz: float(band.hz),
            gain_db: float(band.gain_db),
            q: float(band.q),
            enabled: band.enabled,
        }
    }
}

impl From<FilterBand> for eq::FilterBand {
    fn from(band: FilterBand) -> Self {
        Self {
            kind: band.kind,
            hz: number(band.hz),
            gain_db: number(band.gain_db),
            q: number(band.q),
            enabled: band.enabled,
        }
    }
}

/// The shape of a target.
#[derive(Debug, Clone, PartialEq)]
pub enum TargetShape {
    Flat,
    Tilt { db_per_octave: f32 },
    Room { shelf_db: f32, transition_hz: f32, db_per_octave: f32 },
    Custom { points: Vec<(f32, f32)> },
}

impl From<&TargetShape> for target::TargetShape {
    fn from(shape: &TargetShape) -> Self {
        match shape {
            TargetShape::Flat => Self::Flat,
            TargetShape::Tilt { db_per_octave } => {
                Self::Tilt { db_per_octave: number(*db_per_octave) }
            }
            TargetShape::Room { shelf_db, transition_hz, db_per_octave } => Self::Room {
                shelf_db: number(*shelf_db),
                transition_hz: number(*transition_hz),
                db_per_octave: number(*db_per_octave),
            },
            TargetShape::Custom { points } => Self::Custom { points: level_points(points) },
        }
    }
}

impl From<&target::TargetShape> for TargetShape {
    fn from(shape: &target::TargetShape) -> Self {
        match shape {
            target::TargetShape::Flat => Self::Flat,
            target::TargetShape::Tilt { db_per_octave } => {
                Self::Tilt { db_per_octave: float(*db_per_octave) }
            }
            target::TargetShape::Room { shelf_db, transition_hz, db_per_octave } => Self::Room {
                shelf_db: float(*shelf_db),
                transition_hz: float(*transition_hz),
                db_per_octave: float(*db_per_octave),
            },
            target::TargetShape::Custom { points } => {
                Self::Custom { points: points.iter().map(|p| (float(p.hz), float(p.db))).collect() }
            }
        }
    }
}

fn level_points(points: &[(f32, f32)]) -> Vec<LevelPoint> {
    points.iter().map(|(hz, db)| LevelPoint { hz: number(*hz), db: number(*db) }).collect()
}

impl TargetShape {
    pub fn room() -> Self {
        Self::from(&target::TargetShape::room())
    }

    pub fn custom(points: Vec<(f32, f32)>) -> Self {
        Self::from(&target::TargetShape::custom(level_points(&points)))
    }

    pub fn db_at(&self, hz: f32) -> f32 {
        float(target::TargetShape::from(self).db_at(&single(), number(hz)))
    }
}

/// A target curve: a shape and the offset that puts it on a measurement.
pub struct TargetCurve {
    inner: target::TargetCurve,
}

impl TargetCurve {
    pub fn new(shape: TargetShape) -> Self {
        Self { inner: target::TargetCurve::new((&shape).into()) }
    }

    pub fn shape(&self) -> TargetShape {
        self.inner.shape().into()
    }

    pub fn offset_db(&self) -> f32 {
        float(self.inner.offset_db())
    }

    pub fn set_shape(&mut self, shape: TargetShape) {
        self.inner.set_shape((&shape).into());
    }

    pub fn set_offset_db(&mut self, offset_db: f32) {
        self.inner.set_offset_db(number(offset_db));
    }

    pub fn db_at(&self, hz: f32) -> f32 {
        float(self.inner.db_at(&single(), number(hz)))
    }

    pub fn write_levels(&self, frequencies: &[f32], out: &mut [f32]) {
        let mut levels = numbers(out);
        self.inner.write_levels(&single(), &numbers(frequencies), &mut levels);
        out.copy_from_slice(&floats(&levels));
    }

    pub fn align_to(&mut self, frequencies: &[f32], measured_db: &[f32], from_hz: f32, to_hz: f32) {
        self.inner.align_to(
            &single(),
            &precise(),
            &numbers(frequencies),
            &numbers(measured_db),
            number(from_hz),
            number(to_hz),
        );
    }

    pub fn aligned_to(
        mut self,
        frequencies: &[f32],
        measured_db: &[f32],
        from_hz: f32,
        to_hz: f32,
    ) -> Self {
        self.inner = self.inner.aligned_to(
            &single(),
            &precise(),
            &numbers(frequencies),
            &numbers(measured_db),
            number(from_hz),
            number(to_hz),
        );
        self
    }

    pub fn write_error(&self, frequencies: &[f32], measured_db: &[f32], out: &mut [f32]) {
        let mut error = numbers(out);
        self.inner.write_error(
            &single(),
            &numbers(frequencies),
            &numbers(measured_db),
            &mut error,
        );
        out.copy_from_slice(&floats(&error));
    }
}

/// How a fit is constrained.
#[derive(Debug, Clone, PartialEq)]
pub struct OptimiserConfig {
    pub max_filters: usize,
    pub from_hz: f32,
    pub to_hz: f32,
    pub max_boost_db: f32,
    pub max_cut_db: f32,
    pub max_q: f32,
    pub min_q: f32,
    pub threshold_db: f32,
    pub sample_rate: f32,
}

impl Default for OptimiserConfig {
    fn default() -> Self {
        let usual = fit::OptimiserConfig::usual();
        Self {
            max_filters: usual.max_filters,
            from_hz: float(usual.from_hz),
            to_hz: float(usual.to_hz),
            max_boost_db: float(usual.max_boost_db),
            max_cut_db: float(usual.max_cut_db),
            max_q: float(usual.max_q),
            min_q: float(usual.min_q),
            threshold_db: float(usual.threshold_db),
            sample_rate: float(usual.sample_rate),
        }
    }
}

impl From<&OptimiserConfig> for fit::OptimiserConfig {
    fn from(config: &OptimiserConfig) -> Self {
        Self {
            max_filters: config.max_filters,
            from_hz: number(config.from_hz),
            to_hz: number(config.to_hz),
            max_boost_db: number(config.max_boost_db),
            max_cut_db: number(config.max_cut_db),
            max_q: number(config.max_q),
            min_q: number(config.min_q),
            threshold_db: number(config.threshold_db),
            sample_rate: number(config.sample_rate),
        }
    }
}

/// What a fit produced.
#[derive(Debug, Clone, PartialEq, Default)]
pub struct Optimisation {
    pub bands: Vec<FilterBand>,
    pub initial_error_db: f32,
    pub final_error_db: f32,
}

impl Optimisation {
    pub fn improvement_db(&self) -> f32 {
        let whole = fit::Optimisation {
            bands: Vec::new(),
            initial_error_db: number(self.initial_error_db),
            final_error_db: number(self.final_error_db),
        };
        float(whole.improvement_db(&single()))
    }
}

/// Fit filters to the gap between a measurement and a target.
pub fn optimise(
    frequencies: &[f32],
    measured_db: &[f32],
    target: &TargetCurve,
    config: &OptimiserConfig,
) -> Optimisation {
    let result = fit::optimise(
        &single(),
        &precise(),
        &numbers(frequencies),
        &numbers(measured_db),
        &target.inner,
        &config.into(),
    );
    Optimisation {
        bands: result.bands.iter().copied().map(FilterBand::from).collect(),
        initial_error_db: float(result.initial_error_db),
        final_error_db: float(result.final_error_db),
    }
}

const RATE: f32 = 48_000.0;

fn log_sweep(from: f32, to: f32, count: usize) -> Vec<f32> {
    (0..count)
        .map(|i| {
            let t = i as f32 / (count - 1) as f32;
            from * (to / from).powf(t)
        })
        .collect()
}

fn with_peak(frequencies: &[f32], hz: f32, gain_db: f32, q: f32) -> Vec<f32> {
    let section = Biquad::peaking(hz, q, gain_db, RATE);
    frequencies
        .iter()
        .map(|f| 20.0 * section.magnitude_at(*f, RATE).log10())
        .collect()
}

fn flat_target() -> TargetCurve {
    TargetCurve::new(TargetShape::Flat)
}

#[test]
fn a_single_resonance_is_corrected_nearly_flat() {
    let frequencies = log_sweep(20.0, 500.0, 400);
    let measured = with_peak(&frequencies, 63.0, 8.0, 4.0);

    let result = optimise(
        &frequencies,
        &measured,
        &flat_target(),
        &OptimiserConfig::default(),
    );

    assert!(!result.bands.is_empty());
    assert!(
        result.final_error_db < 0.5,
        "residual {} dB from {}",
        result.final_error_db,
        result.initial_error_db
    );
    assert!(result.improvement_db() > 1.0);
}

#[test]
fn the_first_filter_lands_on_the_resonance() {
    let frequencies = log_sweep(20.0, 500.0, 400);
    let measured = with_peak(&frequencies, 63.0, 8.0, 4.0);

    let result = optimise(
        &frequencies,
        &measured,
        &flat_target(),
        &OptimiserConfig::default(),
    );

    let first = result.bands.first().unwrap();
    assert!((first.hz / 63.0).log2().abs() < 0.25, "at {} Hz", first.hz);
    assert!(first.gain_db < 0.0, "a peak wants a cut");
}

#[test]
fn two_resonances_get_two_filters() {
    let frequencies = log_sweep(20.0, 500.0, 600);
    let first = with_peak(&frequencies, 45.0, 7.0, 6.0);
    let second = with_peak(&frequencies, 180.0, -6.0, 5.0);
    let measured: Vec<f32> = first.iter().zip(&second).map(|(a, b)| a + b).collect();

    let result = optimise(
        &frequencies,
        &measured,
        &flat_target(),
        &OptimiserConfig::default(),
    );

    assert!(result.bands.len() >= 2, "{:?}", result.bands);
    assert!(result.improvement_db() > 1.0);
}

#[test]
fn a_deep_null_is_not_boosted_past_the_cap() {
    let frequencies = log_sweep(20.0, 500.0, 400);
    let measured = with_peak(&frequencies, 80.0, -20.0, 8.0);

    let config = OptimiserConfig {
        max_boost_db: 3.0,
        ..OptimiserConfig::default()
    };
    let result = optimise(&frequencies, &measured, &flat_target(), &config);

    for band in &result.bands {
        assert!(
            band.gain_db <= 3.0 + 1e-4,
            "boosted {} dB into a null",
            band.gain_db
        );
    }
}

#[test]
fn cuts_and_boosts_respect_their_separate_caps() {
    let frequencies = log_sweep(20.0, 500.0, 400);
    let peak = with_peak(&frequencies, 60.0, 18.0, 5.0);
    let dip = with_peak(&frequencies, 200.0, -18.0, 5.0);
    let measured: Vec<f32> = peak.iter().zip(&dip).map(|(a, b)| a + b).collect();

    let config = OptimiserConfig {
        max_boost_db: 2.0,
        max_cut_db: 9.0,
        ..OptimiserConfig::default()
    };
    let result = optimise(&frequencies, &measured, &flat_target(), &config);

    for band in &result.bands {
        assert!(band.gain_db <= 2.0 + 1e-4, "{}", band.gain_db);
        assert!(band.gain_db >= -9.0 - 1e-4, "{}", band.gain_db);
    }
}

#[test]
fn filters_stay_inside_the_q_limits() {
    let frequencies = log_sweep(20.0, 500.0, 400);
    let measured = with_peak(&frequencies, 63.0, 10.0, 20.0);

    let config = OptimiserConfig {
        min_q: 1.0,
        max_q: 6.0,
        ..OptimiserConfig::default()
    };
    let result = optimise(&frequencies, &measured, &flat_target(), &config);

    for band in &result.bands {
        assert!(band.q >= 1.0 - 1e-4 && band.q <= 6.0 + 1e-4, "q {}", band.q);
    }
}

#[test]
fn nothing_outside_the_band_is_corrected() {
    let frequencies = log_sweep(20.0, 20_000.0, 800);
    let measured = with_peak(&frequencies, 5000.0, 10.0, 4.0);

    let result = optimise(
        &frequencies,
        &measured,
        &flat_target(),
        &OptimiserConfig::default(),
    );
    assert!(
        result.bands.is_empty(),
        "corrected above the band: {:?}",
        result.bands
    );
}

#[test]
fn an_already_flat_measurement_gets_no_filters() {
    let frequencies = log_sweep(20.0, 500.0, 400);
    let measured = vec![0.0; frequencies.len()];
    let result = optimise(
        &frequencies,
        &measured,
        &flat_target(),
        &OptimiserConfig::default(),
    );
    assert!(result.bands.is_empty());
}

#[test]
fn the_fit_never_makes_the_error_worse() {
    let frequencies = log_sweep(20.0, 500.0, 400);
    for (hz, gain, q) in [(40.0, 9.0, 3.0), (120.0, -7.0, 6.0), (300.0, 4.0, 1.5)] {
        let measured = with_peak(&frequencies, hz, gain, q);
        let result = optimise(
            &frequencies,
            &measured,
            &flat_target(),
            &OptimiserConfig::default(),
        );
        assert!(
            result.final_error_db <= result.initial_error_db + 1e-4,
            "{hz} Hz: {} -> {}",
            result.initial_error_db,
            result.final_error_db
        );
    }
}

#[test]
fn the_fit_is_deterministic() {
    let frequencies = log_sweep(20.0, 500.0, 400);
    let measured = with_peak(&frequencies, 63.0, 8.0, 4.0);
    let run = || {
        optimise(
            &frequencies,
            &measured,
            &flat_target(),
            &OptimiserConfig::default(),
        )
    };
    assert_eq!(run(), run());
}

#[test]
fn it_honours_a_non_flat_target() {
    let frequencies = log_sweep(20.0, 500.0, 400);
    let target = TargetCurve::new(TargetShape::room());
    let measured: Vec<f32> = frequencies.iter().map(|hz| target.db_at(*hz)).collect();

    let result = optimise(
        &frequencies,
        &measured,
        &target,
        &OptimiserConfig::default(),
    );
    assert!(
        result.bands.is_empty(),
        "corrected a measurement that already matched: {:?}",
        result.bands
    );
}

#[test]
fn a_measurement_missing_the_targets_bass_lift_gets_boosted() {
    let frequencies = log_sweep(20.0, 500.0, 400);
    let target = TargetCurve::new(TargetShape::room());
    let measured = vec![0.0; frequencies.len()];

    let result = optimise(
        &frequencies,
        &measured,
        &target,
        &OptimiserConfig::default(),
    );
    assert!(!result.bands.is_empty());
    assert!(
        result.bands.iter().any(|band| band.gain_db > 0.0),
        "expected a boost toward the target's bass lift"
    );
}

#[test]
fn max_filters_is_respected() {
    let frequencies = log_sweep(20.0, 500.0, 600);
    let mut measured = vec![0.0f32; frequencies.len()];
    for (index, hz) in [30.0, 55.0, 90.0, 140.0, 220.0, 350.0].iter().enumerate() {
        let gain = if index % 2 == 0 { 8.0 } else { -8.0 };
        for (slot, value) in with_peak(&frequencies, *hz, gain, 6.0).iter().enumerate() {
            measured[slot] += value;
        }
    }

    let config = OptimiserConfig {
        max_filters: 3,
        ..OptimiserConfig::default()
    };
    let result = optimise(&frequencies, &measured, &flat_target(), &config);
    assert!(result.bands.len() <= 3);
}

#[test]
fn empty_and_degenerate_input_is_survivable() {
    let config = OptimiserConfig::default();
    assert_eq!(
        optimise(&[], &[], &flat_target(), &config),
        Optimisation::default()
    );
    let result = optimise(&[100.0, 200.0], &[0.0], &flat_target(), &config);
    assert!(result.bands.is_empty());
    let result = optimise(&[5.0], &[10.0], &flat_target(), &config);
    assert_eq!(result, Optimisation::default());
}

#[test]
fn a_nonsense_configuration_is_repaired_rather_than_obeyed() {
    let frequencies = log_sweep(20.0, 500.0, 200);
    let measured = with_peak(&frequencies, 63.0, 8.0, 4.0);
    let config = OptimiserConfig {
        from_hz: 0.0,
        to_hz: -1.0,
        min_q: -3.0,
        max_q: f32::NAN,
        threshold_db: f32::NAN,
        sample_rate: 0.0,
        ..OptimiserConfig::default()
    };
    let result = optimise(&frequencies, &measured, &flat_target(), &config);
    for band in &result.bands {
        assert!(band.hz.is_finite() && band.hz > 0.0);
        assert!(band.q.is_finite() && band.q > 0.0);
        assert!(band.gain_db.is_finite());
    }
}

#[test]
fn non_finite_measurement_points_are_skipped() {
    let frequencies = log_sweep(20.0, 500.0, 400);
    let mut measured = with_peak(&frequencies, 63.0, 8.0, 4.0);
    measured[10] = f32::NAN;
    measured[20] = f32::NEG_INFINITY;

    let result = optimise(
        &frequencies,
        &measured,
        &flat_target(),
        &OptimiserConfig::default(),
    );
    assert!(result.final_error_db.is_finite());
    assert!(result.bands.iter().all(|band| band.gain_db.is_finite()));
}

#[test]
fn a_configuration_is_repaired_to_usable_values() {
    let broken = OptimiserConfig {
        max_filters: 1000,
        from_hz: f32::NAN,
        to_hz: 1.0,
        max_boost_db: -4.0,
        max_cut_db: f32::NAN,
        max_q: 0.1,
        min_q: 2.0,
        threshold_db: -1.0,
        sample_rate: f32::INFINITY,
    };
    let repaired = fit::OptimiserConfig::from(&broken).validated(&single());
    assert_eq!(repaired.max_filters, 64);
    assert_eq!(float(repaired.from_hz), 20.0);
    assert_eq!(float(repaired.to_hz), 500.0);
    assert_eq!(float(repaired.max_boost_db), 0.0);
    assert_eq!(float(repaired.max_cut_db), 0.0);
    assert_eq!(float(repaired.min_q), 2.0);
    assert_eq!(float(repaired.max_q), 8.0);
    assert_eq!(float(repaired.threshold_db), 0.5);
    assert_eq!(float(repaired.sample_rate), 48_000.0);
}

#[test]
fn an_improvement_is_a_difference() {
    let result = Optimisation { bands: Vec::new(), initial_error_db: 3.5, final_error_db: 1.25 };
    assert_eq!(result.improvement_db(), 2.25);
}

#[test]
fn every_filter_of_a_fit_is_made_of_numbers_within_the_limits() {
    let frequencies = log_sweep(20.0, 500.0, 400);
    let mut measured = with_peak(&frequencies, 60.0, 14.0, 8.0);
    for (slot, value) in with_peak(&frequencies, 200.0, -14.0, 2.0).iter().enumerate() {
        measured[slot] += value;
    }
    let config = OptimiserConfig::default();
    let result = optimise(&frequencies, &measured, &flat_target(), &config);
    assert!(!result.bands.is_empty());
    for band in &result.bands {
        assert!(band.hz >= config.from_hz && band.hz <= config.to_hz);
        assert!(band.q >= config.min_q && band.q <= config.max_q);
        assert!(band.gain_db >= -config.max_cut_db && band.gain_db <= config.max_boost_db);
        assert!(band.gain_db.abs() >= 0.05);
    }
}

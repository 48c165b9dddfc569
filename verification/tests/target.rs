//! Target curves, through the single-precision numbers they stand for.

use analyzer::arith::{Arith, Calc, Wide, WideArith};
use analyzer::dsp::target::ALIGN_FROM_HZ as FROM_HZ;
use analyzer::dsp::target::ALIGN_TO_HZ as TO_HZ;
use analyzer::dsp::target::REFERENCE_HZ as CENTRE_HZ;
use analyzer::dsp::target;
use analyzer::ieee::{F32, F64};
use analyzer::points::LevelPoint;

/// The bit pattern of `x`.
pub fn number(x: f32) -> F32 {
    F32 { bits: x.to_bits() }
}

/// The number with the bit pattern `x`.
pub fn float(x: F32) -> f32 {
    f32::from_bits(x.bits)
}

/// The bit patterns of `xs`.
pub fn numbers(xs: &[f32]) -> Vec<F32> {
    xs.iter().copied().map(number).collect()
}

/// The numbers with the bit patterns `xs`.
pub fn floats(xs: &[F32]) -> Vec<f32> {
    xs.iter().copied().map(float).collect()
}

/// One step of single-precision arithmetic, by the machine's own operations.
pub fn calculate(step: Calc) -> F32 {
    number(match step {
        Calc::Plus(a, b) => float(a) + float(b),
        Calc::Minus(a, b) => float(a) - float(b),
        Calc::Times(a, b) => float(a) * float(b),
        Calc::Over(a, b) => float(a) / float(b),
        Calc::Root(a) => float(a).sqrt(),
        Calc::Sine(a) => float(a).sin(),
        Calc::Cosine(a) => float(a).cos(),
        Calc::Tangent(a) => float(a).tan(),
        Calc::Exp(a) => float(a).exp(),
        Calc::Ln(a) => float(a).ln(),
        Calc::Log2(a) => float(a).log2(),
        Calc::Log10(a) => float(a).log10(),
        Calc::Power(a, b) => float(a).powf(float(b)),
        Calc::Hypot(a, b) => float(a).hypot(float(b)),
        Calc::Angle(a, b) => float(a).atan2(float(b)),
        Calc::Degrees(a) => float(a).to_degrees(),
        Calc::Remainder(a, b) => float(a).rem_euclid(float(b)),
        Calc::Floor(a) => float(a).floor(),
        Calc::Count(n) => n as f32,
        Calc::Whole(n) => n as f32,
        Calc::Narrow(a) => double(a) as f32,
    })
}

/// The number with the bit pattern `x`.
pub fn double(x: F64) -> f64 {
    f64::from_bits(x.bits)
}

/// Single-precision arithmetic.
pub type Single = Arith<fn(Calc) -> F32>;

/// The machine's single-precision arithmetic.
pub fn single() -> Single {
    Arith::new(calculate)
}

/// The bit pattern of `x`.
pub fn wide_number(x: f64) -> F64 {
    F64 { bits: x.to_bits() }
}

/// One step of double-precision arithmetic, by the machine's own operations.
pub fn calculate_wide(step: Wide) -> F64 {
    wide_number(match step {
        Wide::Plus(a, b) => double(a) + double(b),
        Wide::Minus(a, b) => double(a) - double(b),
        Wide::Times(a, b) => double(a) * double(b),
        Wide::Over(a, b) => double(a) / double(b),
        Wide::Root(a) => double(a).sqrt(),
        Wide::Sine(a) => double(a).sin(),
        Wide::Exp(a) => double(a).exp(),
        Wide::Ln(a) => double(a).ln(),
        Wide::Count(n) => n as f64,
        Wide::Widen(a) => f64::from(float(a)),
    })
}

/// Double-precision arithmetic.
pub type Precise = WideArith<fn(Wide) -> F64>;

/// The machine's double-precision arithmetic.
pub fn precise() -> Precise {
    WideArith::new(calculate_wide)
}

/// The shape of a target.
#[derive(Debug, Clone, PartialEq)]
pub enum TargetShape {
    Flat,
    Tilt { db_per_octave: f32 },
    Room { shelf_db: f32, transition_hz: f32, db_per_octave: f32 },
    Custom { points: Vec<(f32, f32)> },
}

impl From<&TargetShape> for target::TargetShape {
    fn from(shape: &TargetShape) -> Self {
        match shape {
            TargetShape::Flat => Self::Flat,
            TargetShape::Tilt { db_per_octave } => {
                Self::Tilt { db_per_octave: number(*db_per_octave) }
            }
            TargetShape::Room { shelf_db, transition_hz, db_per_octave } => Self::Room {
                shelf_db: number(*shelf_db),
                transition_hz: number(*transition_hz),
                db_per_octave: number(*db_per_octave),
            },
            TargetShape::Custom { points } => Self::Custom { points: level_points(points) },
        }
    }
}

impl From<&target::TargetShape> for TargetShape {
    fn from(shape: &target::TargetShape) -> Self {
        match shape {
            target::TargetShape::Flat => Self::Flat,
            target::TargetShape::Tilt { db_per_octave } => {
                Self::Tilt { db_per_octave: float(*db_per_octave) }
            }
            target::TargetShape::Room { shelf_db, transition_hz, db_per_octave } => Self::Room {
                shelf_db: float(*shelf_db),
                transition_hz: float(*transition_hz),
                db_per_octave: float(*db_per_octave),
            },
            target::TargetShape::Custom { points } => {
                Self::Custom { points: points.iter().map(|p| (float(p.hz), float(p.db))).collect() }
            }
        }
    }
}

fn level_points(points: &[(f32, f32)]) -> Vec<LevelPoint> {
    points.iter().map(|(hz, db)| LevelPoint { hz: number(*hz), db: number(*db) }).collect()
}

impl TargetShape {
    pub fn room() -> Self {
        Self::from(&target::TargetShape::room())
    }

    pub fn custom(points: Vec<(f32, f32)>) -> Self {
        Self::from(&target::TargetShape::custom(level_points(&points)))
    }

    pub fn db_at(&self, hz: f32) -> f32 {
        float(target::TargetShape::from(self).db_at(&single(), number(hz)))
    }
}

/// A target curve: a shape and the offset that puts it on a measurement.
pub struct TargetCurve {
    inner: target::TargetCurve,
}

impl TargetCurve {
    pub fn new(shape: TargetShape) -> Self {
        Self { inner: target::TargetCurve::new((&shape).into()) }
    }

    pub fn shape(&self) -> TargetShape {
        self.inner.shape().into()
    }

    pub fn offset_db(&self) -> f32 {
        float(self.inner.offset_db())
    }

    pub fn set_shape(&mut self, shape: TargetShape) {
        self.inner.set_shape((&shape).into());
    }

    pub fn set_offset_db(&mut self, offset_db: f32) {
        self.inner.set_offset_db(number(offset_db));
    }

    pub fn db_at(&self, hz: f32) -> f32 {
        float(self.inner.db_at(&single(), number(hz)))
    }

    pub fn write_levels(&self, frequencies: &[f32], out: &mut [f32]) {
        let mut levels = numbers(out);
        self.inner.write_levels(&single(), &numbers(frequencies), &mut levels);
        out.copy_from_slice(&floats(&levels));
    }

    pub fn align_to(&mut self, frequencies: &[f32], measured_db: &[f32], from_hz: f32, to_hz: f32) {
        self.inner.align_to(
            &single(),
            &precise(),
            &numbers(frequencies),
            &numbers(measured_db),
            number(from_hz),
            number(to_hz),
        );
    }

    pub fn aligned_to(
        mut self,
        frequencies: &[f32],
        measured_db: &[f32],
        from_hz: f32,
        to_hz: f32,
    ) -> Self {
        self.inner = self.inner.aligned_to(
            &single(),
            &precise(),
            &numbers(frequencies),
            &numbers(measured_db),
            number(from_hz),
            number(to_hz),
        );
        self
    }

    pub fn write_error(&self, frequencies: &[f32], measured_db: &[f32], out: &mut [f32]) {
        let mut error = numbers(out);
        self.inner.write_error(
            &single(),
            &numbers(frequencies),
            &numbers(measured_db),
            &mut error,
        );
        out.copy_from_slice(&floats(&error));
    }
}

const REFERENCE_HZ: f32 = f32::from_bits(CENTRE_HZ);

const ALIGN_FROM_HZ: f32 = f32::from_bits(FROM_HZ);

const ALIGN_TO_HZ: f32 = f32::from_bits(TO_HZ);

fn log_sweep(from: f32, to: f32, count: usize) -> Vec<f32> {
    (0..count)
        .map(|i| {
            let t = i as f32 / (count - 1) as f32;
            from * (to / from).powf(t)
        })
        .collect()
}

#[test]
fn flat_is_flat_everywhere() {
    let target = TargetCurve::new(TargetShape::Flat);
    for hz in [20.0, 100.0, 1000.0, 20_000.0] {
        assert_eq!(target.db_at(hz), 0.0);
    }
}

#[test]
fn a_tilt_moves_by_its_slope_per_octave() {
    let target = TargetCurve::new(TargetShape::Tilt {
        db_per_octave: -1.5,
    });
    assert!((target.db_at(REFERENCE_HZ)).abs() < 1e-6);
    assert!((target.db_at(2000.0) + 1.5).abs() < 1e-5);
    assert!((target.db_at(500.0) - 1.5).abs() < 1e-5);
    assert!((target.db_at(4000.0) + 3.0).abs() < 1e-5);
}

#[test]
fn a_room_shelf_reaches_half_its_lift_at_the_transition() {
    let shape = TargetShape::Room {
        shelf_db: 6.0,
        transition_hz: 100.0,
        db_per_octave: 0.0,
    };
    assert!((shape.db_at(100.0) - 3.0).abs() < 1e-5);
    assert!(shape.db_at(10.0) > 5.9);
    assert!(shape.db_at(2000.0) < 0.1);
}

#[test]
fn the_default_room_target_lifts_the_bass_and_falls_with_frequency() {
    let shape = TargetShape::room();
    assert!(shape.db_at(20.0) > shape.db_at(200.0));
    assert!(shape.db_at(1000.0) > shape.db_at(10_000.0));
}

#[test]
fn custom_points_are_sorted_and_cleaned() {
    let shape = TargetShape::custom(vec![
        (1000.0, -2.0),
        (0.0, 99.0),
        (100.0, 3.0),
        (f32::NAN, 1.0),
    ]);
    let TargetShape::Custom { points } = &shape else {
        panic!("expected custom");
    };
    assert_eq!(points, &[(100.0, 3.0), (1000.0, -2.0)]);
}

#[test]
fn custom_interpolation_is_logarithmic() {
    let shape = TargetShape::custom(vec![(100.0, 0.0), (1000.0, 10.0)]);
    let midpoint = shape.db_at(316.227_77);
    assert!((midpoint - 5.0).abs() < 0.01, "got {midpoint}");
}

#[test]
fn custom_curves_hold_their_ends_rather_than_extrapolating() {
    let shape = TargetShape::custom(vec![(100.0, 3.0), (1000.0, -2.0)]);
    assert_eq!(shape.db_at(20.0), 3.0);
    assert_eq!(shape.db_at(20_000.0), -2.0);
}

#[test]
fn an_empty_or_single_point_custom_curve_is_usable() {
    assert_eq!(TargetShape::custom(vec![]).db_at(1000.0), 0.0);
    assert_eq!(TargetShape::custom(vec![(500.0, 4.0)]).db_at(1000.0), 4.0);
}

#[test]
fn alignment_centres_the_target_on_the_measurement() {
    let frequencies = log_sweep(20.0, 20_000.0, 512);
    let measured: Vec<f32> = frequencies.iter().map(|_| -35.0).collect();

    let target = TargetCurve::new(TargetShape::Flat).aligned_to(
        &frequencies,
        &measured,
        ALIGN_FROM_HZ,
        ALIGN_TO_HZ,
    );
    assert!((target.offset_db() + 35.0).abs() < 1e-4);
    assert!((target.db_at(1000.0) + 35.0).abs() < 1e-4);
}

#[test]
fn alignment_ignores_everything_outside_the_band() {
    let frequencies = log_sweep(20.0, 20_000.0, 512);
    let measured: Vec<f32> = frequencies
        .iter()
        .map(|hz| if *hz < 100.0 { -90.0 } else { -30.0 })
        .collect();

    let target = TargetCurve::new(TargetShape::Flat).aligned_to(
        &frequencies,
        &measured,
        ALIGN_FROM_HZ,
        ALIGN_TO_HZ,
    );
    assert!(
        (target.offset_db() + 30.0).abs() < 0.5,
        "{}",
        target.offset_db()
    );
}

#[test]
fn alignment_over_an_empty_band_leaves_the_offset_alone() {
    let mut target = TargetCurve::new(TargetShape::Flat);
    target.set_offset_db(-12.0);
    target.align_to(&[100.0], &[-40.0], 1000.0, 2000.0);
    assert_eq!(target.offset_db(), -12.0);
}

#[test]
fn alignment_skips_non_finite_measurements() {
    let frequencies = [500.0, 1000.0, 1500.0];
    let measured = [f32::NEG_INFINITY, -20.0, f32::NAN];
    let target = TargetCurve::new(TargetShape::Flat).aligned_to(
        &frequencies,
        &measured,
        ALIGN_FROM_HZ,
        ALIGN_TO_HZ,
    );
    assert!((target.offset_db() + 20.0).abs() < 1e-4);
}

#[test]
fn error_is_measured_minus_target() {
    let frequencies = [100.0, 1000.0];
    let measured = [-20.0, -30.0];
    let mut target = TargetCurve::new(TargetShape::Flat);
    target.set_offset_db(-25.0);

    let mut error = [0.0; 2];
    target.write_error(&frequencies, &measured, &mut error);
    assert!((error[0] - 5.0).abs() < 1e-5);
    assert!((error[1] + 5.0).abs() < 1e-5);
}

#[test]
fn writing_levels_stops_at_the_shorter_side() {
    let target = TargetCurve::new(TargetShape::Flat);
    let mut out = [7.0; 4];
    target.write_levels(&[100.0, 200.0], &mut out);
    assert_eq!(out[0], 0.0);
    assert_eq!(out[1], 0.0);
    assert_eq!(out[2], 7.0, "beyond the frequencies given, untouched");
}

#[test]
fn a_non_positive_frequency_evaluates_to_zero_rather_than_nan() {
    for shape in [
        TargetShape::Flat,
        TargetShape::room(),
        TargetShape::Tilt {
            db_per_octave: -1.0,
        },
    ] {
        assert_eq!(shape.db_at(0.0), 0.0);
        assert_eq!(shape.db_at(-100.0), 0.0);
        assert!(shape.db_at(f32::NAN) == 0.0);
    }
}

#[test]
fn a_non_finite_offset_is_refused() {
    let mut target = TargetCurve::new(TargetShape::Flat);
    target.set_offset_db(-10.0);
    target.set_offset_db(f32::NAN);
    assert_eq!(target.offset_db(), -10.0);
}

#[test]
fn the_shapes_are_exact() {
    let hz = 333.0_f32;
    let tilt = -0.5 * (hz / 1000.0).log2();
    assert_eq!(TargetShape::Tilt { db_per_octave: -0.5 }.db_at(hz), tilt);
    let shelf = 6.0 / (1.0 + (hz / 105.0).powf(2.0));
    assert_eq!(TargetShape::room().db_at(hz).to_bits(), (shelf + tilt).to_bits());
    let between = TargetShape::custom(vec![(100.0, 1.0), (1000.0, -2.0)]);
    let t = (hz / 100.0).ln() / (1000.0_f32 / 100.0).ln();
    assert_eq!(between.db_at(hz).to_bits(), (1.0 + t * (-2.0 - 1.0)).to_bits());
    let unusable = TargetShape::Room { shelf_db: 6.0, transition_hz: 0.0, db_per_octave: 0.0 };
    assert_eq!(unusable.db_at(hz), 0.0);
}

#[test]
fn aligning_again_changes_nothing() {
    let frequencies = log_sweep(20.0, 20_000.0, 64);
    let measured: Vec<f32> = frequencies.iter().map(|hz| -20.0 - hz.log2()).collect();
    let mut target = TargetCurve::new(TargetShape::room());
    target.align_to(&frequencies, &measured, ALIGN_FROM_HZ, ALIGN_TO_HZ);
    let once = target.offset_db();
    target.align_to(&frequencies, &measured, ALIGN_FROM_HZ, ALIGN_TO_HZ);
    assert_eq!(target.offset_db(), once);
    target.set_shape(TargetShape::Flat);
    assert_eq!(target.shape(), TargetShape::Flat);
    assert_eq!(target.offset_db(), once);
}

#[test]
fn a_frequency_that_is_no_number_does_not_count() {
    let mut curve = TargetCurve::new(TargetShape::Flat);
    curve.align_to(&[f32::NAN], &[5.0], 100.0, 1000.0);
    assert_eq!(curve.offset_db(), 0.0);
    curve.align_to(&[f32::NAN, 100.0, 1000.0], &[50.0, 5.0, 7.0], 100.0, 1000.0);
    assert_eq!(curve.offset_db(), 6.0);
}

//! Frequency weightings, through the single-precision numbers they stand for.

use analyzer::arith::{Arith, Calc};
use analyzer::cal::weighting;
use analyzer::ieee::{F32, F64};

/// The bit pattern of `x`.
pub fn number(x: f32) -> F32 {
    F32 { bits: x.to_bits() }
}

/// The number with the bit pattern `x`.
pub fn float(x: F32) -> f32 {
    f32::from_bits(x.bits)
}

/// The bit patterns of `xs`.
pub fn numbers(xs: &[f32]) -> Vec<F32> {
    xs.iter().copied().map(number).collect()
}

/// The numbers with the bit patterns `xs`.
pub fn floats(xs: &[F32]) -> Vec<f32> {
    xs.iter().copied().map(float).collect()
}

/// One step of single-precision arithmetic, by the machine's own operations.
pub fn calculate(step: Calc) -> F32 {
    number(match step {
        Calc::Plus(a, b) => float(a) + float(b),
        Calc::Minus(a, b) => float(a) - float(b),
        Calc::Times(a, b) => float(a) * float(b),
        Calc::Over(a, b) => float(a) / float(b),
        Calc::Root(a) => float(a).sqrt(),
        Calc::Sine(a) => float(a).sin(),
        Calc::Cosine(a) => float(a).cos(),
        Calc::Tangent(a) => float(a).tan(),
        Calc::Exp(a) => float(a).exp(),
        Calc::Ln(a) => float(a).ln(),
        Calc::Log2(a) => float(a).log2(),
        Calc::Log10(a) => float(a).log10(),
        Calc::Power(a, b) => float(a).powf(float(b)),
        Calc::Hypot(a, b) => float(a).hypot(float(b)),
        Calc::Angle(a, b) => float(a).atan2(float(b)),
        Calc::Degrees(a) => float(a).to_degrees(),
        Calc::Remainder(a, b) => float(a).rem_euclid(float(b)),
        Calc::Floor(a) => float(a).floor(),
        Calc::Count(n) => n as f32,
        Calc::Whole(n) => n as f32,
        Calc::Narrow(a) => double(a) as f32,
    })
}

/// The number with the bit pattern `x`.
pub fn double(x: F64) -> f64 {
    f64::from_bits(x.bits)
}

/// Single-precision arithmetic.
pub type Single = Arith<fn(Calc) -> F32>;

/// The machine's single-precision arithmetic.
pub fn single() -> Single {
    Arith::new(calculate)
}

/// A frequency weighting.
#[derive(Debug, Clone, Copy, PartialEq, Eq)]
pub enum Weighting {
    Z,
    A,
    C,
}

impl From<Weighting> for weighting::Weighting {
    fn from(weighting: Weighting) -> Self {
        match weighting {
            Weighting::Z => Self::Z,
            Weighting::A => Self::A,
            Weighting::C => Self::C,
        }
    }
}

impl From<weighting::Weighting> for Weighting {
    fn from(weighting: weighting::Weighting) -> Self {
        match weighting {
            weighting::Weighting::Z => Self::Z,
            weighting::Weighting::A => Self::A,
            weighting::Weighting::C => Self::C,
        }
    }
}

impl Weighting {
    pub fn db_at(self, hz: f32) -> f32 {
        float(weighting::Weighting::from(self).db_at(&single(), number(hz)))
    }

    pub fn label(self) -> &'static str {
        weighting::Weighting::from(self).label()
    }
}

#[test]
fn a_weighting_matches_the_standard() {
    let cases = [
        (10.0, -70.4, 0.6),
        (20.0, -50.5, 0.4),
        (50.0, -30.2, 0.3),
        (100.0, -19.1, 0.2),
        (200.0, -10.9, 0.2),
        (500.0, -3.2, 0.2),
        (1000.0, 0.0, 0.05),
        (2000.0, 1.2, 0.2),
        (5000.0, 0.5, 0.2),
        (10_000.0, -2.5, 0.3),
        (20_000.0, -9.3, 0.5),
    ];
    for (hz, expected, tolerance) in cases {
        let got = Weighting::A.db_at(hz);
        assert!(
            (got - expected).abs() < tolerance,
            "A at {hz} Hz: got {got:.2}, standard says {expected}"
        );
    }
}

#[test]
fn c_weighting_matches_the_standard() {
    let cases = [
        (10.0, -14.3, 0.3),
        (20.0, -6.2, 0.2),
        (50.0, -1.3, 0.1),
        (100.0, -0.3, 0.1),
        (1000.0, 0.0, 0.05),
        (5000.0, -1.3, 0.1),
        (10_000.0, -4.4, 0.2),
        (20_000.0, -11.2, 0.4),
    ];
    for (hz, expected, tolerance) in cases {
        let got = Weighting::C.db_at(hz);
        assert!(
            (got - expected).abs() < tolerance,
            "C at {hz} Hz: got {got:.2}, standard says {expected}"
        );
    }
}

#[test]
fn both_curves_are_exactly_zero_at_one_kilohertz() {
    assert!(Weighting::A.db_at(1000.0).abs() < 0.05);
    assert!(Weighting::C.db_at(1000.0).abs() < 0.05);
}

#[test]
fn z_weighting_is_flat_everywhere() {
    for hz in [1.0, 20.0, 1000.0, 20_000.0, 96_000.0] {
        assert_eq!(Weighting::Z.db_at(hz), 0.0);
    }
}

#[test]
fn a_attenuates_bass_much_harder_than_c() {
    for hz in [10.0, 20.0, 50.0, 100.0] {
        let a = Weighting::A.db_at(hz);
        let c = Weighting::C.db_at(hz);
        assert!(
            a < c - 5.0,
            "at {hz} Hz: A {a:.1} should be well below C {c:.1}"
        );
    }
}

#[test]
fn dc_and_negative_frequencies_return_a_floor_not_a_nan() {
    for weighting in [Weighting::A, Weighting::C, Weighting::Z] {
        assert!(weighting.db_at(0.0).is_finite());
        assert!(weighting.db_at(-100.0).is_finite());
    }
    assert!(Weighting::A.db_at(0.0) < -100.0);
}

#[test]
fn curves_stay_finite_across_the_whole_band() {
    for step in 1..200_000 {
        let hz = step as f32 * 0.5;
        assert!(Weighting::A.db_at(hz).is_finite(), "A broke at {hz}");
        assert!(Weighting::C.db_at(hz).is_finite(), "C broke at {hz}");
    }
}

#[test]
fn labels_are_stable() {
    assert_eq!(Weighting::A.label(), "A");
    assert_eq!(Weighting::C.label(), "C");
    assert_eq!(Weighting::Z.label(), "Z");
}

#[test]
fn the_curves_are_exact() {
    let (f1, f2, f3, f4) = (20.598_997_f32, 107.652_65_f32, 737.862_23_f32, 12_194.217_f32);
    for hz in [12.5_f32, 440.0, 9000.0] {
        let f = hz * hz;
        let poles = (f + f1 * f1) * (f + f4 * f4);
        let c = 20.0 * ((f4 * f4 * f) / poles).log10() + 0.062;
        assert!((Weighting::C.db_at(hz) - c).abs() < 1e-4, "C at {hz}");
        let middle = ((f + f2 * f2) * (f + f3 * f3)).sqrt();
        let a = 20.0 * ((f4 * f4 * f * f) / (poles * middle)).log10() + 2.0;
        assert!((Weighting::A.db_at(hz) - a).abs() < 1e-4, "A at {hz}");
    }
    for weighting in [Weighting::A, Weighting::C] {
        assert_eq!(weighting.db_at(0.0), -200.0);
    }
    assert_eq!(weighting::Weighting::default(), weighting::Weighting::Z);
}

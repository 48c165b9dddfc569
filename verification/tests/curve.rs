//! Response curves, through the single-precision numbers they stand for.

use analyzer::arith::{Arith, Calc};
use analyzer::cal::curve::{self, Reader};
use analyzer::ieee::{F32, F64};
use analyzer::points::LevelPoint;
use std::fmt;

/// The bit pattern of `x`.
pub fn number(x: f32) -> F32 {
    F32 { bits: x.to_bits() }
}

/// The number with the bit pattern `x`.
pub fn float(x: F32) -> f32 {
    f32::from_bits(x.bits)
}

/// The bit patterns of `xs`.
pub fn numbers(xs: &[f32]) -> Vec<F32> {
    xs.iter().copied().map(number).collect()
}

/// The numbers with the bit patterns `xs`.
pub fn floats(xs: &[F32]) -> Vec<f32> {
    xs.iter().copied().map(float).collect()
}

/// One step of single-precision arithmetic, by the machine's own operations.
pub fn calculate(step: Calc) -> F32 {
    number(match step {
        Calc::Plus(a, b) => float(a) + float(b),
        Calc::Minus(a, b) => float(a) - float(b),
        Calc::Times(a, b) => float(a) * float(b),
        Calc::Over(a, b) => float(a) / float(b),
        Calc::Root(a) => float(a).sqrt(),
        Calc::Sine(a) => float(a).sin(),
        Calc::Cosine(a) => float(a).cos(),
        Calc::Tangent(a) => float(a).tan(),
        Calc::Exp(a) => float(a).exp(),
        Calc::Ln(a) => float(a).ln(),
        Calc::Log2(a) => float(a).log2(),
        Calc::Log10(a) => float(a).log10(),
        Calc::Power(a, b) => float(a).powf(float(b)),
        Calc::Hypot(a, b) => float(a).hypot(float(b)),
        Calc::Angle(a, b) => float(a).atan2(float(b)),
        Calc::Degrees(a) => float(a).to_degrees(),
        Calc::Remainder(a, b) => float(a).rem_euclid(float(b)),
        Calc::Floor(a) => float(a).floor(),
        Calc::Count(n) => n as f32,
        Calc::Whole(n) => n as f32,
        Calc::Narrow(a) => double(a) as f32,
    })
}

/// The number with the bit pattern `x`.
pub fn double(x: F64) -> f64 {
    f64::from_bits(x.bits)
}

/// Single-precision arithmetic.
pub type Single = Arith<fn(Calc) -> F32>;

/// The machine's single-precision arithmetic.
pub fn single() -> Single {
    Arith::new(calculate)
}

/// The number a field of a calibration file spells.
pub fn read_number(field: &[char]) -> Option<F32> {
    field.iter().collect::<String>().parse().ok().map(number)
}

/// A response curve: points interpolated in log frequency.
#[derive(Debug, Clone)]
pub struct ResponseCurve {
    inner: curve::ResponseCurve,
    points: Vec<(f32, f32)>,
}

impl From<curve::ResponseCurve> for ResponseCurve {
    fn from(inner: curve::ResponseCurve) -> Self {
        let points = inner.points().iter().map(|p| (float(p.hz), float(p.db))).collect();
        Self { inner, points }
    }
}

impl ResponseCurve {
    pub fn new(points: Vec<(f32, f32)>) -> Self {
        let points =
            points.iter().map(|(hz, db)| LevelPoint { hz: number(*hz), db: number(*db) }).collect();
        Self::from(curve::ResponseCurve::new(&single(), points))
    }

    pub fn flat() -> Self {
        Self::from(curve::ResponseCurve::flat())
    }

    pub fn is_flat(&self) -> bool {
        self.inner.is_flat()
    }

    pub fn points(&self) -> &[(f32, f32)] {
        &self.points
    }

    pub fn db_at(&self, hz: f32) -> f32 {
        float(self.inner.db_at(&single(), number(hz)))
    }

    pub fn parse(text: &str) -> Self {
        Self::from(curve::ResponseCurve::parse(&single(), &Reader::new(read_number), text))
    }
}

impl fmt::Display for ResponseCurve {
    fn fmt(&self, f: &mut fmt::Formatter<'_>) -> fmt::Result {
        let end = |point: Option<&(f32, f32)>| {
            point.map_or_else(String::new, |(hz, _)| format!("{hz:.0}"))
        };
        let (first, last) = (end(self.points.first()), end(self.points.last()));
        f.write_str(&self.inner.summary(&first, &last))
    }
}

fn curve() -> ResponseCurve {
    ResponseCurve::new(vec![
        (20.0, -2.0),
        (100.0, -0.5),
        (1000.0, 0.0),
        (10_000.0, 1.5),
        (20_000.0, 3.0),
    ])
}

#[test]
fn a_flat_curve_corrects_nothing() {
    let flat = ResponseCurve::flat();
    assert!(flat.is_flat());
    for hz in [20.0, 1000.0, 20_000.0] {
        assert_eq!(flat.db_at(hz), 0.0);
    }
}

#[test]
fn exact_points_return_their_own_value() {
    let curve = curve();
    assert!((curve.db_at(20.0) - -2.0).abs() < 1e-4);
    assert!((curve.db_at(1000.0) - 0.0).abs() < 1e-4);
    assert!((curve.db_at(20_000.0) - 3.0).abs() < 1e-4);
}

#[test]
fn interpolation_is_logarithmic_in_frequency() {
    let curve = ResponseCurve::new(vec![(100.0, 0.0), (10_000.0, 10.0)]);
    assert!(
        (curve.db_at(1000.0) - 5.0).abs() < 1e-3,
        "got {}",
        curve.db_at(1000.0)
    );
    assert!(curve.db_at(1000.0) > 4.0);
}

#[test]
fn outside_the_range_the_endpoints_are_held() {
    let curve = curve();
    assert!(
        (curve.db_at(1.0) - -2.0).abs() < 1e-4,
        "below the first point"
    );
    assert!(
        (curve.db_at(96_000.0) - 3.0).abs() < 1e-4,
        "above the last point"
    );
}

#[test]
fn points_are_sorted_and_deduplicated() {
    let curve = ResponseCurve::new(vec![
        (1000.0, 1.0),
        (20.0, -1.0),
        (1000.0, 9.0),
        (100.0, 0.0),
    ]);
    let points = curve.points();
    assert_eq!(points.len(), 3);
    for pair in points.windows(2) {
        assert!(pair[0].0 < pair[1].0, "not sorted: {points:?}");
    }
}

#[test]
fn non_positive_and_non_finite_points_are_dropped() {
    let curve = ResponseCurve::new(vec![
        (0.0, 5.0),
        (-100.0, 5.0),
        (f32::NAN, 1.0),
        (100.0, f32::INFINITY),
        (1000.0, 0.5),
    ]);
    assert_eq!(curve.points().len(), 1);
    assert!((curve.db_at(1000.0) - 0.5).abs() < 1e-4);
}

#[test]
fn parses_a_typical_vendor_file() {
    let text = "\
* Microphone calibration
* Serial 12345
\x20
20.0    -2.00   0.0
100.0   -0.50   0.0
1000.0   0.00   0.0
10000.0  1.50   0.0
";
    let curve = ResponseCurve::parse(text);
    assert_eq!(curve.points().len(), 4);
    assert!((curve.db_at(1000.0)).abs() < 1e-4);
    assert!((curve.db_at(20.0) - -2.0).abs() < 1e-4);
}

#[test]
fn parses_comma_separated_and_hash_comments() {
    let curve = ResponseCurve::parse("# header\n20,-1.5\n1000,0\n20000,2.5\n");
    assert_eq!(curve.points().len(), 3);
    assert!((curve.db_at(20_000.0) - 2.5).abs() < 1e-4);
}

#[test]
fn unparseable_lines_are_skipped_not_fatal() {
    let curve = ResponseCurve::parse(
        "Sens Factor =-.4dB, SERNO: 1234\n\
         not numbers at all\n\
         20.0 -1.0\n\
         1000.0 0.0\n\
         trailing junk\n",
    );
    assert_eq!(curve.points().len(), 2);
}

#[test]
fn an_empty_file_yields_a_flat_curve() {
    assert!(ResponseCurve::parse("").is_flat());
    assert!(ResponseCurve::parse("* only comments\n# nothing else\n").is_flat());
}

#[test]
fn display_summarises_the_range() {
    assert_eq!(format!("{}", ResponseCurve::flat()), "flat");
    assert_eq!(format!("{}", curve()), "5 points, 20-20000 Hz");
}

#[test]
fn a_single_point_curve_is_a_constant_offset() {
    let curve = ResponseCurve::new(vec![(1000.0, 2.5)]);
    for hz in [10.0, 1000.0, 20_000.0] {
        assert!((curve.db_at(hz) - 2.5).abs() < 1e-4);
    }
}

#[test]
fn interpolation_is_exact() {
    let curve = ResponseCurve::new(vec![(100.0, -1.0), (1000.0, 2.0)]);
    let t = (333.0_f32.log10() - 100.0_f32.log10()) / (1000.0_f32.log10() - 100.0_f32.log10());
    let expected = -1.0 + (2.0 - -1.0) * t;
    assert!((curve.db_at(333.0) - expected).abs() < 1e-5);
    assert_eq!(curve.db_at(0.0), 0.0);
    assert_eq!(curve.db_at(f32::NAN), 0.0);
}

#[test]
fn a_file_with_every_kind_of_line_reads_the_same_as_its_points() {
    let parsed = ResponseCurve::parse(
        "; comment\r\n\"quoted\"\r\n\t1000\t0.5 ignored\r\n 20 , -3e0\n5\nnan 1\n30 inf\n-5 2\n+100 .25",
    );
    assert_eq!(parsed.points(), [(20.0, -3.0), (100.0, 0.25), (1000.0, 0.5)]);
}

#[test]
fn points_stay_ascending_and_usable() {
    let curve = ResponseCurve::new(vec![
        (f32::INFINITY, 0.0),
        (500.0, 1.0),
        (500.0, 2.0),
        (f32::MIN_POSITIVE, 3.0),
        (250.0, 4.0),
    ]);
    assert!(curve.points().windows(2).all(|pair| pair[0].0 < pair[1].0));
    assert!(curve.points().iter().all(|(hz, db)| *hz > 0.0 && hz.is_finite() && db.is_finite()));
    assert_eq!(curve.points()[1], (250.0, 4.0));
    assert_eq!(curve.points()[2], (500.0, 1.0));
}

#[test]
fn of_points_at_one_frequency_the_first_stays() {
    let curve = ResponseCurve::new(vec![(200.0, 3.0), (100.0, 1.0), (200.0, 9.0), (100.0, 8.0)]);
    assert_eq!(curve.points(), [(100.0, 1.0), (200.0, 3.0)]);
}

#[test]
fn a_curve_made_of_its_own_points_is_the_same_curve() {
    let given = vec![(1000.0, 1.0), (20.0, -2.0), (1000.0, 3.0), (0.0, 9.0), (50.0, 0.5)];
    let once = ResponseCurve::new(given);
    let again = ResponseCurve::new(once.points().to_vec());
    assert_eq!(again.points(), once.points());
    assert!(again.inner == once.inner);
    assert!(once.inner == once.inner.clone());
    assert!(once.inner != ResponseCurve::flat().inner);
}

#[test]
fn no_usable_frequency_is_lost() {
    let given = [(1000.0, 1.0), (20.0, -2.0), (1000.0, 3.0), (-5.0, 9.0), (50.0, 0.5)];
    let curve = ResponseCurve::new(given.to_vec());
    for (hz, _) in given.iter().filter(|(hz, _)| *hz > 0.0) {
        assert!(curve.points().iter().any(|(kept, _)| (kept - hz).abs() < f32::EPSILON));
    }
    assert_eq!(curve.points().len(), 3);
}

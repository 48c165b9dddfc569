//! Numbers by their bit patterns, and what is built on them.

use analyzer::arith::{greatest_of, magnitudes_of, squares_of, sum_of, Arith, Calc, Complex, Wide, WideArith};
use analyzer::dsp::framing::SlidingFrame;
use analyzer::dsp::peak::{find_last_peak, parabola_offset};
use analyzer::ieee::{F32, F64};
use analyzer::order::{arrange, sorted_numbers, stable_order};
use analyzer::points::{tidy, LevelPoint};
use analyzer::powers::{is_power_of_two, next_power_of_two};
use analyzer::text::decimal_text;

/// The bit pattern of `x`.
pub fn number(x: f32) -> F32 {
    F32 { bits: x.to_bits() }
}

/// The number with the bit pattern `x`.
pub fn float(x: F32) -> f32 {
    f32::from_bits(x.bits)
}

/// The bit patterns of `xs`.
pub fn numbers(xs: &[f32]) -> Vec<F32> {
    xs.iter().copied().map(number).collect()
}

/// The numbers with the bit patterns `xs`.
pub fn floats(xs: &[F32]) -> Vec<f32> {
    xs.iter().copied().map(float).collect()
}

/// One step of single-precision arithmetic, by the machine's own operations.
pub fn calculate(step: Calc) -> F32 {
    number(match step {
        Calc::Plus(a, b) => float(a) + float(b),
        Calc::Minus(a, b) => float(a) - float(b),
        Calc::Times(a, b) => float(a) * float(b),
        Calc::Over(a, b) => float(a) / float(b),
        Calc::Root(a) => float(a).sqrt(),
        Calc::Sine(a) => float(a).sin(),
        Calc::Cosine(a) => float(a).cos(),
        Calc::Tangent(a) => float(a).tan(),
        Calc::Exp(a) => float(a).exp(),
        Calc::Ln(a) => float(a).ln(),
        Calc::Log2(a) => float(a).log2(),
        Calc::Log10(a) => float(a).log10(),
        Calc::Power(a, b) => float(a).powf(float(b)),
        Calc::Hypot(a, b) => float(a).hypot(float(b)),
        Calc::Angle(a, b) => float(a).atan2(float(b)),
        Calc::Degrees(a) => float(a).to_degrees(),
        Calc::Remainder(a, b) => float(a).rem_euclid(float(b)),
        Calc::Floor(a) => float(a).floor(),
        Calc::Count(n) => n as f32,
        Calc::Whole(n) => n as f32,
        Calc::Narrow(a) => double(a) as f32,
    })
}

/// The number with the bit pattern `x`.
pub fn double(x: F64) -> f64 {
    f64::from_bits(x.bits)
}

/// Single-precision arithmetic.
pub type Single = Arith<fn(Calc) -> F32>;

/// The machine's single-precision arithmetic.
pub fn single() -> Single {
    Arith::new(calculate)
}

/// The bit pattern of `x`.
pub fn wide_number(x: f64) -> F64 {
    F64 { bits: x.to_bits() }
}

/// One step of double-precision arithmetic, by the machine's own operations.
pub fn calculate_wide(step: Wide) -> F64 {
    wide_number(match step {
        Wide::Plus(a, b) => double(a) + double(b),
        Wide::Minus(a, b) => double(a) - double(b),
        Wide::Times(a, b) => double(a) * double(b),
        Wide::Over(a, b) => double(a) / double(b),
        Wide::Root(a) => double(a).sqrt(),
        Wide::Sine(a) => double(a).sin(),
        Wide::Exp(a) => double(a).exp(),
        Wide::Ln(a) => double(a).ln(),
        Wide::Count(n) => n as f64,
        Wide::Widen(a) => f64::from(float(a)),
    })
}

/// Double-precision arithmetic.
pub type Precise = WideArith<fn(Wide) -> F64>;

/// The machine's double-precision arithmetic.
pub fn precise() -> Precise {
    WideArith::new(calculate_wide)
}

fn samples() -> Vec<f32> {
    let mut xs = vec![
        0.0,
        -0.0,
        1.0,
        -1.0,
        0.5,
        1.5,
        2.5,
        -2.5,
        0.499_999_97,
        8_388_607.5,
        16_777_216.0,
        1e10,
        3.4e38,
        -3.4e38,
        f32::MIN_POSITIVE,
        1e-42,
        f32::INFINITY,
        f32::NEG_INFINITY,
        f32::NAN,
        -f32::NAN,
    ];
    let mut state = 88_172_645_463_325_252_u64;
    for _ in 0..500 {
        state ^= state << 13;
        state ^= state >> 7;
        state ^= state << 17;
        xs.push(f32::from_bits(state as u32));
        xs.push((state >> 40) as f32 / 1000.0);
    }
    xs
}

#[test]
fn single_precision_is_read_as_the_machine_reads_it() {
    for a in samples() {
        let x = number(a);
        assert_eq!(x.is_nan(), a.is_nan());
        assert_eq!(x.is_finite(), a.is_finite());
        assert_eq!(x.abs().bits, a.abs().to_bits());
        assert_eq!(x.negated().bits, (-a).to_bits());
        assert_eq!(x.floor_to_usize(), a as usize);
        assert_eq!(x.ceil_to_usize(), a.ceil() as usize);
        assert_eq!(x.round_to_usize(), a.round() as usize);
    }
}

#[test]
fn single_precision_is_compared_as_the_machine_compares_it() {
    let xs = samples();
    for (a, b) in xs.iter().zip(xs.iter().rev().chain(&xs)).take(900) {
        for (a, b) in [(*a, *b), (*b, *a), (*a, *a)] {
            let (x, y) = (number(a), number(b));
            assert_eq!(x.lt(y), a < b);
            assert_eq!(x.le(y), a <= b);
            assert_eq!(x.same(y), a == b);
            assert_eq!(x.before(y), a.total_cmp(&b).is_lt());
            assert_eq!(x.total_key() < y.total_key(), a.total_cmp(&b).is_lt());
            if !a.is_nan() && !b.is_nan() && a != b {
                assert_eq!(x.max(y).bits, a.max(b).to_bits());
                assert_eq!(x.min(y).bits, a.min(b).to_bits());
            }
            if !a.is_nan() && b.is_nan() {
                assert_eq!(x.max(y).bits, a.to_bits());
                assert_eq!(y.min(x).bits, a.to_bits());
            }
        }
        assert_eq!(number(*a).clamp(number(-1.0), number(1.0)).bits, a.clamp(-1.0, 1.0).to_bits());
    }
}

#[test]
fn double_precision_is_read_as_the_machine_reads_it() {
    for a in samples() {
        for a in [f64::from(a), f64::from(a) * 1e12, f64::from(a) / 3.0] {
            let x = wide_number(a);
            assert_eq!(x.is_nan(), a.is_nan());
            assert_eq!(x.is_finite(), a.is_finite());
            assert_eq!(x.abs().bits, a.abs().to_bits());
            assert_eq!(x.floor_to_u64(), a as u64);
            assert_eq!(x.floor_to_usize(), a as usize);
            assert_eq!(x.ceil_to_usize(), a.ceil() as usize);
            assert_eq!(x.round_to_usize(), a.round() as usize);
            assert_eq!(x.lt(wide_number(2.5)), a < 2.5);
            assert_eq!(x.le(wide_number(-0.0)), a <= 0.0);
            assert_eq!(x.total_key() < wide_number(0.0).total_key(), a.total_cmp(&0.0).is_lt());
        }
    }
}

#[test]
fn numbers_sort_in_the_total_order() {
    let mut expected = samples();
    let sorted = sorted_numbers(&numbers(&expected));
    expected.sort_by(f32::total_cmp);
    let expected: Vec<u32> = expected.iter().map(|x| x.to_bits()).collect();
    assert_eq!(sorted.iter().map(|x| x.bits).collect::<Vec<u32>>(), expected);
}

#[test]
fn an_ordering_is_stable_and_has_each_once() {
    let keys = [3_i64, 1, 2, 1, 3, -5];
    let order = stable_order(&keys);
    assert_eq!(order, [5, 1, 3, 2, 0, 4]);
    assert_eq!(arrange(&['a', 'b', 'c', 'd', 'e', 'f'], &keys), ['f', 'b', 'd', 'c', 'a', 'e']);
    assert!(stable_order(&[]).is_empty());
}

#[test]
fn tidied_points_ascend_and_are_usable() {
    let point = |hz: f32, db: f32| LevelPoint { hz: number(hz), db: number(db) };
    let tidied = tidy(&[
        point(500.0, 1.0),
        point(f32::NAN, 0.0),
        point(20.0, 2.0),
        point(-1.0, 0.0),
        point(500.0, 3.0),
        point(70.0, f32::INFINITY),
    ]);
    assert_eq!(tidied, [point(20.0, 2.0), point(500.0, 1.0), point(500.0, 3.0)]);
    assert!(tidied.iter().all(LevelPoint::usable));
}

#[test]
fn powers_of_two_and_decimals() {
    for n in [0_usize, 1, 2, 3, 4, 5, 1023, 1024, 1025, 1 << 40] {
        assert_eq!(is_power_of_two(n), n.is_power_of_two());
        assert_eq!(next_power_of_two(n), n.next_power_of_two());
    }
    for n in [0_u64, 7, 10, 909, 4_294_967_296, u64::MAX] {
        assert_eq!(decimal_text(n), n.to_string());
    }
}

#[test]
fn a_peak_is_the_last_of_the_greatest() {
    let at = |xs: &[f32]| find_last_peak(&numbers(xs));
    assert_eq!(at(&[]), None);
    assert_eq!(at(&[0.5]), Some(0));
    assert_eq!(at(&[1.0, 3.0, 2.0, 3.0, -4.0]), Some(3));
    let m = single();
    for (a, b, c) in [(1.0_f32, 2.0, 1.5), (0.0, 1.0, 0.0), (1.0, 1.0, 1.0), (-9.0, 0.0, -1e-3)] {
        let offset = float(parabola_offset(&m, number(a), number(b), number(c)));
        assert!(offset.abs() <= 0.5, "{a} {b} {c}: {offset}");
    }
    assert_eq!(float(parabola_offset(&m, number(0.0), number(1.0), number(0.0))), 0.0);
}

#[test]
fn a_sliding_frame_keeps_what_overlaps() {
    let mut frame = SlidingFrame::new(4, 3, 0_u8);
    assert_eq!((frame.size(), frame.hop()), (4, 3));
    assert_eq!(frame.fill(&[1, 2, 3, 4, 5], 0), 4);
    assert!(frame.is_complete());
    assert_eq!(frame.samples(), [1, 2, 3, 4]);
    frame.slide();
    assert!(!frame.is_complete());
    assert_eq!(frame.fill(&[1, 2, 3, 4, 5], 4), 1);
    assert_eq!(frame.fill(&[6, 7], 0), 2);
    assert_eq!(frame.samples(), [4, 5, 6, 7]);
    frame.clear();
    assert!(!frame.is_complete());
}

#[test]
fn sums_and_products_go_in_order() {
    let m = single();
    let xs = [0.1_f32, 1e8, -1e8, 0.3, f32::MIN_POSITIVE];
    let sum = xs.iter().fold(0.0_f32, |total, x| total + x);
    assert_eq!(float(sum_of(&m, &numbers(&xs))), sum);
    assert_eq!(floats(&squares_of(&m, &numbers(&[3.0, -0.5]))), [9.0, 0.25]);
    assert_eq!(floats(&magnitudes_of(&numbers(&[3.0, -0.5]))), [3.0, 0.5]);
    assert_eq!(float(greatest_of(&numbers(&[0.25, 4.0, f32::NAN, 2.0]))), 4.0);
    let (a, b) = ((1.5_f32, -2.0_f32), (0.25_f32, 3.0_f32));
    let z = |p: (f32, f32)| Complex { re: number(p.0), im: number(p.1) };
    let product = m.product(z(a), z(b));
    assert_eq!(float(product.re), a.0 * b.0 - a.1 * b.1);
    assert_eq!(float(product.im), a.0 * b.1 + a.1 * b.0);
    let quotient = m.quotient(z(a), z(b));
    let norm = b.0 * b.0 + b.1 * b.1;
    assert_eq!(float(quotient.re), (a.0 * b.0 + a.1 * b.1) / norm);
    assert_eq!(float(quotient.im), (a.1 * b.0 - a.0 * b.1) / norm);
    assert_eq!(float(m.norm(z(a))), a.0.hypot(a.1));
    assert_eq!(float(m.arg(z(a))), a.1.atan2(a.0));
    assert_eq!(z(a).conj(), z((1.5, 2.0)));
}

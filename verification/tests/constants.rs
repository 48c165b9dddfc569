//! The constants, as the numbers they stand for.

use analyzer::cal::{chain, curve, weighting};
use analyzer::dsp::{biquad, deconv, delay, distortion, eq, generator, ir, meter, mtw, octave, optimise, peak, spectrum, target, transfer};
use analyzer::engine::engine;
use analyzer::numbers;

fn assert_all(pairs: &[(u32, f32)]) {
    for (bits, x) in pairs {
        assert_eq!(*bits, x.to_bits(), "{x} stands as {}", f32::from_bits(*bits));
    }
}

#[test]
fn plain_numbers() {
    assert_all(&[
        (numbers::ZERO, 0.0),
        (numbers::HALF, 0.5),
        (numbers::ONE, 1.0),
        (numbers::TWO, 2.0),
        (numbers::TEN, 10.0),
        (numbers::TWENTY, 20.0),
        (numbers::MINUS_ONE, -1.0),
        (numbers::SMALLEST_NORMAL, f32::MIN_POSITIVE),
        (numbers::PI, std::f32::consts::PI),
        (numbers::TAU, std::f32::consts::TAU),
        (peak::MINUS_HALF, -0.5),
        (biquad::MINUS_TWO, -2.0),
        (biquad::FORTY, 40.0),
        (distortion::HUNDRED, 100.0),
        (chain::THOUSAND, 1000.0),
        (ir::QUARTER, 0.25),
        (ir::SIX, 6.0),
        (ir::THREE, 3.0),
        (ir::INFINITY, f32::INFINITY),
        (ir::LARGEST, f32::MAX),
        (ir::MINUS_LARGEST, f32::MIN),
        (eq::MINUS_INFINITY, f32::NEG_INFINITY),
    ]);
}

#[test]
fn calibration() {
    assert_all(&[
        (chain::CALIBRATOR_SPL_DB, 94.0),
        (curve::LEAST_DISTANCE, f32::EPSILON),
        (weighting::F1, 20.598_997),
        (weighting::F2, 107.652_65),
        (weighting::F3, 737.862_23),
        (weighting::F4, 12_194.217),
        (weighting::C_OFFSET, 0.062),
        (weighting::NOTHING_DB, -200.0),
    ]);
}

#[test]
fn floors() {
    assert_all(&[
        (spectrum::DB_FLOOR, -200.0),
        (transfer::MAGNITUDE_FLOOR_DB, -200.0),
        (mtw::MTW_FLOOR_DB, -200.0),
        (ir::IR_FLOOR_DB, -200.0),
        (meter::METER_FLOOR_DB, -200.0),
        (octave::BAND_FLOOR_DB, -200.0),
        (distortion::DISTORTION_FLOOR_DB, -200.0),
    ]);
}

#[test]
fn filters() {
    assert_all(&[
        (biquad::EPSILON, f32::EPSILON),
        (biquad::BELOW_NYQUIST, 0.999),
        (biquad::LEAST_Q, 1e-3),
        (biquad::STEEPEST, 1.55),
        (eq::OCTAVE_Q, std::f32::consts::SQRT_2),
        (eq::KILOHERTZ, 1000.0),
        (eq::TOP_HZ, 24_000.0),
        (eq::LEAST_TRIM_DB, 0.01),
        (eq::LEAST_RATIO, 1e-12),
        (meter::FULL_SCALE_RMS, std::f32::consts::FRAC_1_SQRT_2),
        (meter::UNITY_HZ, 1000.0),
        (meter::W1, 20.598_997 * std::f32::consts::TAU),
        (meter::W2, 107.652_65 * std::f32::consts::TAU),
        (meter::W3, 737.862_23 * std::f32::consts::TAU),
        (meter::W4, 12_194.217 * std::f32::consts::TAU),
        (meter::FAST_SECONDS, 0.125),
        (meter::IMPULSE_ATTACK_SECONDS, 0.035),
        (meter::IMPULSE_DECAY_SECONDS, 1.5),
        (meter::LEAST_SECONDS, 1e-4),
    ]);
    let centres = [31.5_f32, 63.0, 125.0, 250.0, 500.0, 1000.0, 2000.0, 4000.0, 8000.0, 16_000.0];
    assert_eq!(eq::OCTAVE_CENTRES, centres.map(f32::to_bits));
}

#[test]
fn measurements() {
    assert_all(&[
        (peak::LEAST_CURVATURE, 1e-20),
        (delay::SILENCE, f32::EPSILON),
        (delay::LEAST_MAGNITUDE, 1e-20),
        (delay::SPEED_OF_SOUND, 343.0),
        (deconv::DEFAULT_REGULARISATION, 1e-6),
        (transfer::HALF_TURN, 180.0),
        (transfer::MINUS_HALF_TURN, -180.0),
        (transfer::WHOLE_TURN, 360.0),
        (engine::TRANSFER_ALPHA, 0.15),
        (generator::HALF_RANGE, 8_388_608.0),
        (octave::OCTAVE_RATIO, 1.995_262_3),
        (octave::REFERENCE_HZ, 1000.0),
        (octave::SLACK_BELOW, 0.99),
        (octave::SLACK_ABOVE, 1.01),
        (octave::TWENTY_KILOHERTZ, 20_000.0),
    ]);
    let preferred = [1.0_f32, 1.25, 1.6, 2.0, 2.5, 3.15, 4.0, 5.0, 6.3, 8.0, 10.0];
    assert_eq!(octave::PREFERRED, preferred.map(f32::to_bits));
    assert_eq!(generator::WIDE_TAU, std::f64::consts::TAU.to_bits());
    assert_eq!(generator::WIDE_ONE, 1.0_f64.to_bits());
    assert_eq!(generator::LEAST, 1e-3_f64.to_bits());
    assert_eq!(delay::ACOUSTIC_WINDOW, 16_384);
    assert_eq!(engine::DRAIN_FRAMES, 4096);
}

#[test]
fn responses() {
    assert_all(&[
        (ir::LEAD_SECONDS, -0.001),
        (ir::LONGEST_FADE_SECONDS, 0.002),
        (ir::TRUNCATION_GUARD, 0.9),
        (ir::MINUS_FIVE_DB, -5.0),
        (ir::MINUS_TEN_DB, -10.0),
        (ir::MINUS_TWENTY_FIVE_DB, -25.0),
        (ir::MINUS_THIRTY_FIVE_DB, -35.0),
        (target::REFERENCE_HZ, 1000.0),
        (target::ALIGN_FROM_HZ, 200.0),
        (target::ALIGN_TO_HZ, 2000.0),
        (target::ROOM_SHELF_DB, 6.0),
        (target::ROOM_TRANSITION_HZ, 105.0),
        (target::ROOM_TILT_DB, -0.5),
        (optimise::DEFAULT_FROM_HZ, 20.0),
        (optimise::DEFAULT_TO_HZ, 500.0),
        (optimise::DEFAULT_MAX_BOOST_DB, 3.0),
        (optimise::DEFAULT_MAX_CUT_DB, 12.0),
        (optimise::DEFAULT_MAX_Q, 8.0),
        (optimise::DEFAULT_MIN_Q, 0.5),
        (optimise::DEFAULT_THRESHOLD_DB, 0.5),
        (optimise::DEFAULT_SAMPLE_RATE, 48_000.0),
        (optimise::LEAST_GAIN_DB, 0.05),
        (optimise::PLAIN_Q, 4.0),
        (optimise::LONG_STEP, 0.1),
        (optimise::SHORT_STEP, 0.04),
    ]);
    assert_eq!(ir::LEAST_SPREAD, 1e-12_f64.to_bits());
}

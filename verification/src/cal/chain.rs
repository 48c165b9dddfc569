//! The calibration chain: converter levels to absolute sound pressure level.
//!
//! The offset comes from a reference tone, which absorbs every unknown in the chain
//! at once, or from the physical chain, when the numbers are on the datasheets.

use vstd::prelude::*;

use crate::arith::{Arith, Calc};
use crate::cal::curve;
use crate::cal::curve::ResponseCurve;
use crate::cal::weighting::Weighting;
use crate::ieee::F32;
use crate::numbers::{num, TEN, TWENTY, ZERO};
use crate::points::LevelPoint;

verus! {

/// The level of a standard acoustic calibrator, one pascal: 94 dB.
pub const CALIBRATOR_SPL_DB: u32 = 0x42BC_0000;

/// One thousand.
pub const THOUSAND: u32 = 0x447A_0000;

/// Full calibration for one input channel.
#[derive(Debug, PartialEq)]
pub struct Calibration {
    /// Decibels added to a level in dBFS to get dB SPL.
    offset_db: F32,
    /// Whether the offset was established, be it zero or not.
    calibrated: bool,
    /// Capsule correction. Flat when unknown.
    microphone: ResponseCurve,
    /// Weighting applied on top.
    weighting: Weighting,
}

/// What a calibration amounts to.
#[verifier::ext_equal]
pub struct CalibrationModel {
    pub offset_db: F32,
    /// Whether the offset was established. Not having measured is not the same as
    /// needing no correction.
    pub calibrated: bool,
    pub microphone: Seq<LevelPoint>,
    pub weighting: Weighting,
}

impl CalibrationModel {
    /// One level converted from dBFS to dB SPL.
    pub open spec fn spl<C: Fn(Calc) -> F32>(self, m: Arith<C>, dbfs: F32, hz: F32) -> F32 {
        m.plus(
            m.plus(m.plus(dbfs, self.offset_db), curve::correction(m, self.microphone, hz)),
            self.weighting.db_at(&m, hz),
        )
    }
}

impl View for Calibration {
    type V = CalibrationModel;

    closed spec fn view(&self) -> CalibrationModel {
        CalibrationModel {
            offset_db: self.offset_db,
            calibrated: self.calibrated,
            microphone: self.microphone@,
            weighting: self.weighting,
        }
    }
}

/// A calibration that is nothing but an offset.
pub open spec fn plain(offset_db: F32) -> CalibrationModel {
    CalibrationModel {
        offset_db,
        calibrated: true,
        microphone: Seq::empty(),
        weighting: Weighting::Z,
    }
}

/// No calibration at all.
pub open spec fn uncalibrated() -> CalibrationModel {
    CalibrationModel { calibrated: false, ..plain(num(ZERO)) }
}

impl Default for Calibration {
    /// Uncalibrated: readings stay in dBFS and are not pretending to be SPL.
    fn default() -> (calibration: Calibration)
        ensures
            calibration@ == uncalibrated(),
    {
        Calibration {
            offset_db: num(ZERO),
            calibrated: false,
            microphone: ResponseCurve::flat(),
            weighting: Weighting::Z,
        }
    }
}

impl Clone for Calibration {
    fn clone(&self) -> (calibration: Calibration)
        ensures
            calibration@ == self@,
    {
        Calibration {
            offset_db: self.offset_db,
            calibrated: self.calibrated,
            microphone: self.microphone.clone(),
            weighting: self.weighting,
        }
    }
}

/// The offset of a signal chain: the level at one pascal less what the converter
/// reads then.
#[verifier::allow_in_spec]
pub fn chain_offset<C: Fn(Calc) -> F32>(
    m: &Arith<C>,
    sensitivity_mv_per_pa: F32,
    preamp_gain_db: F32,
    full_scale_volts: F32,
) -> F32
    returns
        ({
            let volts_at_one_pascal = m.times(
                m.over(sensitivity_mv_per_pa, num(THOUSAND)),
                m.power(num(TEN), m.over(preamp_gain_db, num(TWENTY))),
            );
            m.minus(
                num(CALIBRATOR_SPL_DB),
                m.times(num(TWENTY), m.log10(m.over(volts_at_one_pascal, full_scale_volts))),
            )
        }),
{
    let volts_at_one_pascal = m.times(
        m.over(sensitivity_mv_per_pa, num(THOUSAND)),
        m.power(num(TEN), m.over(preamp_gain_db, num(TWENTY))),
    );
    let dbfs_at_one_pascal = m.times(
        num(TWENTY),
        m.log10(m.over(volts_at_one_pascal, full_scale_volts)),
    );
    m.minus(num(CALIBRATOR_SPL_DB), dbfs_at_one_pascal)
}

impl Calibration {
    /// Derive the offset from a calibrator reading: `measured_dbfs` is what was shown
    /// with a calibrator producing `reference_spl_db` on the capsule.
    pub fn from_reference_tone<C: Fn(Calc) -> F32>(
        m: &Arith<C>,
        measured_dbfs: F32,
        reference_spl_db: F32,
    ) -> (calibration: Calibration)
        ensures
            calibration@ == plain(m.minus(reference_spl_db, measured_dbfs)),
    {
        Calibration {
            offset_db: m.minus(reference_spl_db, measured_dbfs),
            calibrated: true,
            microphone: ResponseCurve::flat(),
            weighting: Weighting::Z,
        }
    }

    /// Derive the offset from the physical signal chain.
    ///
    /// `full_scale_volts` is the RMS voltage of a sine that reads 0 dBFS. Returns
    /// `None` for a sensitivity or a voltage that is not positive, which would
    /// otherwise produce an infinite offset.
    pub fn from_signal_chain<C: Fn(Calc) -> F32>(
        m: &Arith<C>,
        sensitivity_mv_per_pa: F32,
        preamp_gain_db: F32,
        full_scale_volts: F32,
    ) -> (calibration: Option<Calibration>)
        ensures
            calibration is Some <==> num(ZERO).less(sensitivity_mv_per_pa) && num(ZERO).less(
                full_scale_volts,
            ),
            calibration matches Some(c) ==> c@ == plain(
                chain_offset(m, sensitivity_mv_per_pa, preamp_gain_db, full_scale_volts),
            ),
    {
        if !num(ZERO).lt(sensitivity_mv_per_pa) || !num(ZERO).lt(full_scale_volts) {
            return None;
        }
        Some(
            Calibration {
                offset_db: chain_offset(
                    m,
                    sensitivity_mv_per_pa,
                    preamp_gain_db,
                    full_scale_volts,
                ),
                calibrated: true,
                microphone: ResponseCurve::flat(),
                weighting: Weighting::Z,
            },
        )
    }

    /// Attach a microphone response curve.
    #[must_use]
    pub fn with_microphone(self, curve: ResponseCurve) -> (calibration: Calibration)
        ensures
            calibration@ == (CalibrationModel { microphone: curve@, ..self@ }),
    {
        Calibration {
            offset_db: self.offset_db,
            calibrated: self.calibrated,
            microphone: curve,
            weighting: self.weighting,
        }
    }

    /// Set the weighting.
    #[must_use]
    pub fn with_weighting(self, weighting: Weighting) -> (calibration: Calibration)
        ensures
            calibration@ == (CalibrationModel { weighting, ..self@ }),
    {
        Calibration {
            offset_db: self.offset_db,
            calibrated: self.calibrated,
            microphone: self.microphone,
            weighting,
        }
    }

    /// Whether an offset has been established, which may well be zero. When not, output
    /// is still dBFS and must be labelled as such.
    pub fn is_calibrated(&self) -> (calibrated: bool)
        ensures
            calibrated == self@.calibrated,
    {
        self.calibrated
    }

    /// Decibels added to convert dBFS to dB SPL.
    pub fn offset_db(&self) -> (db: F32)
        ensures
            db == self@.offset_db,
    {
        self.offset_db
    }

    /// The weighting in force.
    pub fn weighting(&self) -> (weighting: Weighting)
        ensures
            weighting == self@.weighting,
    {
        self.weighting
    }

    /// The microphone curve in force.
    pub fn microphone(&self) -> (curve: &ResponseCurve)
        ensures
            curve@ == self@.microphone,
    {
        &self.microphone
    }

    /// Convert one bin from dBFS to dB SPL.
    pub fn to_spl<C: Fn(Calc) -> F32>(&self, m: &Arith<C>, dbfs: F32, hz: F32) -> (db: F32)
        ensures
            db == self@.spl(*m, dbfs, hz),
    {
        m.plus(
            m.plus(m.plus(dbfs, self.offset_db), self.microphone.db_at(m, hz)),
            self.weighting.db_at(m, hz),
        )
    }

    /// Apply the chain across a spectrum in place.
    ///
    /// Bin `k` sits at `k` times the spacing. Bin zero is DC and is left alone: it
    /// has no meaningful weighting and no microphone correction. A spacing that is
    /// not positive leaves everything alone.
    pub fn apply<C: Fn(Calc) -> F32>(&self, m: &Arith<C>, bins: &mut [F32], bin_spacing_hz: F32)
        ensures
            final(bins)@ == Seq::new(
                old(bins)@.len(),
                |k: int|
                    if k == 0 || bin_spacing_hz.le(num(ZERO)) {
                        old(bins)@[k]
                    } else {
                        self@.spl(
                            *m,
                            old(bins)@[k],
                            m.times(m.count(k as usize), bin_spacing_hz),
                        )
                    },
            ),
    {
        let ghost before = bins@;
        if !bin_spacing_hz.le(num(ZERO)) {
            let n: usize = bins.len();
            let mut k: usize = 1;
            while k < n
                invariant
                    1 <= k,
                    k <= n || n == 0,
                    n == bins@.len(),
                    n == before.len(),
                    n > 0 ==> bins@[0] == before[0],
                    forall|i: int|
                        1 <= i < k && i < n ==> #[trigger] bins@[i] == self@.spl(
                            *m,
                            before[i],
                            m.times(m.count(i as usize), bin_spacing_hz),
                        ),
                    forall|i: int| k <= i < n ==> #[trigger] bins@[i] == before[i],
                decreases n - k,
            {
                bins[k] = self.to_spl(m, bins[k], m.times(m.count(k), bin_spacing_hz));
                k = k + 1;
            }
        }
        assert(bins@ =~= Seq::new(
            before.len(),
            |k: int|
                if k == 0 || bin_spacing_hz.le(num(ZERO)) {
                    before[k]
                } else {
                    self@.spl(*m, before[k], m.times(m.count(k as usize), bin_spacing_hz))
                },
        ));
    }
}

/// A reference tone reads back as the level of the calibrator, at any frequency,
/// wherever the arithmetic takes back what it subtracted and adding zero changes
/// nothing.
pub proof fn lemma_reference_tone_reads_back<C: Fn(Calc) -> F32>(
    m: Arith<C>,
    measured_dbfs: F32,
    reference_spl_db: F32,
    hz: F32,
)
    requires
        num(ZERO).less(hz),
        m.plus(measured_dbfs, m.minus(reference_spl_db, measured_dbfs)) == reference_spl_db,
        m.plus(reference_spl_db, num(ZERO)) == reference_spl_db,
    ensures
        plain(m.minus(reference_spl_db, measured_dbfs)).spl(m, measured_dbfs, hz)
            == reference_spl_db,
{
}

/// A level in sound pressure is the converter's level with the offset, the microphone's
/// correction and the weighting added, each as it is at that frequency.
pub proof fn lemma_level_is_a_sum<C: Fn(Calc) -> F32>(
    m: Arith<C>,
    calibration: CalibrationModel,
    dbfs: F32,
    hz: F32,
)
    ensures
        calibration.spl(m, dbfs, hz) == m.plus(
            m.plus(
                m.plus(dbfs, calibration.offset_db),
                curve::correction(m, calibration.microphone, hz),
            ),
            calibration.weighting.db_at(&m, hz),
        ),
{
}

/// The offset of a chain: what the converter reads at one pascal is the capsule's
/// voltage there, amplified, over full scale; the calibrator's level less that reading is
/// the offset, so that one pascal reads the calibrator's level again wherever adding
/// takes back what was subtracted.
pub proof fn lemma_one_pascal_reads_the_calibrator<C: Fn(Calc) -> F32>(
    m: Arith<C>,
    sensitivity_mv_per_pa: F32,
    preamp_gain_db: F32,
    full_scale_volts: F32,
)
    ensures
        ({
            let volts = m.times(
                m.over(sensitivity_mv_per_pa, num(THOUSAND)),
                m.power(num(TEN), m.over(preamp_gain_db, num(TWENTY))),
            );
            let reading = m.times(num(TWENTY), m.log10(m.over(volts, full_scale_volts)));
            let offset = chain_offset(
                &m,
                sensitivity_mv_per_pa,
                preamp_gain_db,
                full_scale_volts,
            );
            &&& offset == m.minus(num(CALIBRATOR_SPL_DB), reading)
            &&& m.plus(reading, m.minus(num(CALIBRATOR_SPL_DB), reading)) == num(
                CALIBRATOR_SPL_DB,
            ) ==> m.plus(reading, offset) == num(CALIBRATOR_SPL_DB)
        }),
{
}

/// A calibration begins with an offset alone: a flat microphone and no weighting. None at
/// all has no offset either, and says so.
pub proof fn lemma_plain_calibrations(offset_db: F32)
    ensures
        plain(offset_db).offset_db == offset_db,
        plain(offset_db).calibrated,
        plain(offset_db).microphone.len() == 0,
        plain(offset_db).weighting is Z,
        uncalibrated().offset_db == num(ZERO),
        !uncalibrated().calibrated,
        uncalibrated().microphone.len() == 0,
        uncalibrated().weighting is Z,
{
}

} // verus!

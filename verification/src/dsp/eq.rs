//! Equalisation: a cascade of second-order sections.
//!
//! A graphic equaliser is a fixed set of bands where only the gains move; a
//! parametric one lets every band choose its own frequency, gain, quality factor and
//! shape. They share one implementation because they are one thing.
//!
//! Prediction is arithmetic on the coefficients and touches no audio; application
//! filters a signal and carries state per band. Bands add, and nothing here trims
//! the gain that they add up to unless it is asked to.

use vstd::prelude::*;

use crate::arith::{Arith, Calc, Complex};
use crate::dsp::biquad;
use crate::dsp::biquad::{on_axis, Biquad};
use crate::ieee::F32;
use crate::numbers::{num, HALF, ONE, PI, TEN, TWENTY, ZERO};

verus! {

/// Standard octave centres for a ten-band graphic equaliser, from 31.5 Hz to 16 kHz,
/// rounded the way every graphic equaliser prints them.
pub const OCTAVE_CENTRES: [u32; 10] = [
    0x41FC_0000,
    0x427C_0000,
    0x42FA_0000,
    0x437A_0000,
    0x43FA_0000,
    0x447A_0000,
    0x44FA_0000,
    0x457A_0000,
    0x45FA_0000,
    0x467A_0000,
];

/// Quality factor of a peaking filter one octave wide, the square root of two.
pub const OCTAVE_Q: u32 = 0x3FB5_04F3;

/// One kilohertz.
pub const KILOHERTZ: u32 = 0x447A_0000;

/// The top of the audio band, 24 kHz.
pub const TOP_HZ: u32 = 0x46BB_8000;

/// A hundredth of a decibel. A cut-only equaliser comes out a hair above unity
/// through ordinary rounding, and is not trimmed by that.
pub const LEAST_TRIM_DB: u32 = 0x3C23_D70A;

/// A number below every other.
pub const MINUS_INFINITY: u32 = 0xFF80_0000;

/// The least ratio that is expressed in decibels.
pub const LEAST_RATIO: u32 = 0x2B8C_BCCC;

/// Points over the whole audio band at which the gain is sampled, evenly spaced per
/// octave.
pub const GRID_POINTS: usize = 512;

/// Rings of points around a band at which the gain is sampled as well. The last one is
/// closer to the band than two neighbouring numbers are to each other.
pub const RINGS: usize = 160;

/// How much closer each ring is than the one before it, nine tenths.
pub const RING_RATIO: u32 = 0x3F66_6666;

/// What shape a band has.
#[derive(Debug, Clone, Copy, PartialEq, Eq, Structural)]
pub enum FilterKind {
    /// A bump or dip centred on the frequency. The workhorse.
    Peaking,
    /// Everything below the frequency lifted or cut.
    LowShelf,
    /// Everything above the frequency lifted or cut.
    HighShelf,
    /// Rolls off above the frequency. Gain is ignored.
    LowPass,
    /// Rolls off below the frequency. Gain is ignored.
    HighPass,
    /// Passes a band, rejects either side. Gain is ignored.
    BandPass,
    /// A null at the frequency. Gain is ignored.
    Notch,
    /// Flat magnitude, rotated phase. Gain is ignored.
    AllPass,
}

impl Default for FilterKind {
    fn default() -> (kind: FilterKind)
        ensures
            kind == FilterKind::Peaking,
    {
        FilterKind::Peaking
    }
}

impl FilterKind {
    /// Whether the gain means anything for this shape.
    #[verifier::allow_in_spec]
    pub fn uses_gain(self) -> bool
        returns
            (match self {
                FilterKind::Peaking | FilterKind::LowShelf | FilterKind::HighShelf => true,
                _ => false,
            }),
    {
        match self {
            FilterKind::Peaking | FilterKind::LowShelf | FilterKind::HighShelf => true,
            _ => false,
        }
    }

    /// Short label, matching what the rest of the industry prints.
    pub fn label(self) -> (label: &'static str)
        ensures
            label@ == match self {
                FilterKind::Peaking => "PK"@,
                FilterKind::LowShelf => "LS"@,
                FilterKind::HighShelf => "HS"@,
                FilterKind::LowPass => "LP"@,
                FilterKind::HighPass => "HP"@,
                FilterKind::BandPass => "BP"@,
                FilterKind::Notch => "NO"@,
                FilterKind::AllPass => "AP"@,
            },
    {
        match self {
            FilterKind::Peaking => "PK",
            FilterKind::LowShelf => "LS",
            FilterKind::HighShelf => "HS",
            FilterKind::LowPass => "LP",
            FilterKind::HighPass => "HP",
            FilterKind::BandPass => "BP",
            FilterKind::Notch => "NO",
            FilterKind::AllPass => "AP",
        }
    }
}

/// One band of an equaliser.
#[derive(Debug, Clone, Copy, PartialEq, Eq, Structural)]
pub struct FilterBand {
    pub kind: FilterKind,
    /// Centre or corner frequency in hertz.
    pub hz: F32,
    /// Gain in decibels. Ignored unless [`FilterKind::uses_gain`].
    pub gain_db: F32,
    /// Quality factor. Higher is narrower.
    pub q: F32,
    /// Whether the band contributes. A disabled band keeps its settings.
    pub enabled: bool,
}

impl Default for FilterBand {
    fn default() -> (band: FilterBand)
        ensures
            band == FilterBand::peaking(num(KILOHERTZ), num(ZERO), num(OCTAVE_Q)),
    {
        FilterBand::peaking(num(KILOHERTZ), num(ZERO), num(OCTAVE_Q))
    }
}

impl FilterBand {
    /// A peaking band.
    #[verifier::allow_in_spec]
    pub fn peaking(hz: F32, gain_db: F32, q: F32) -> FilterBand
        returns
            (FilterBand { kind: FilterKind::Peaking, hz, gain_db, q, enabled: true }),
    {
        FilterBand { kind: FilterKind::Peaking, hz, gain_db, q, enabled: true }
    }

    /// Whether this band changes nothing: it is disabled, or its gain is zero and
    /// its shape uses it.
    #[verifier::allow_in_spec]
    pub fn is_transparent(&self) -> bool
        returns
            !self.enabled || (self.kind.uses_gain() && self.gain_db.same(num(ZERO))),
    {
        !self.enabled || (self.kind.uses_gain() && self.gain_db.same(num(ZERO)))
    }

    /// Whether two bands are set alike.
    #[verifier::allow_in_spec]
    pub fn same(&self, other: FilterBand) -> bool
        returns
            self.kind == other.kind && self.hz.same(other.hz) && self.gain_db.same(other.gain_db)
                && self.q.same(other.q) && self.enabled == other.enabled,
    {
        self.kind == other.kind && self.hz.same(other.hz) && self.gain_db.same(other.gain_db)
            && self.q.same(other.q) && self.enabled == other.enabled
    }

    /// Design the section this band describes.
    #[verifier::allow_in_spec]
    pub fn design<C: Fn(Calc) -> F32>(&self, m: &Arith<C>, sample_rate: F32) -> Biquad
        returns
            (if self.is_transparent() {
                Biquad::identity()
            } else {
                match self.kind {
                    FilterKind::Peaking => Biquad::peaking(
                        m,
                        self.hz,
                        self.q,
                        self.gain_db,
                        sample_rate,
                    ),
                    FilterKind::LowShelf => Biquad::low_shelf(
                        m,
                        self.hz,
                        self.q,
                        self.gain_db,
                        sample_rate,
                    ),
                    FilterKind::HighShelf => Biquad::high_shelf(
                        m,
                        self.hz,
                        self.q,
                        self.gain_db,
                        sample_rate,
                    ),
                    FilterKind::LowPass => Biquad::low_pass(m, self.hz, self.q, sample_rate),
                    FilterKind::HighPass => Biquad::high_pass(m, self.hz, self.q, sample_rate),
                    FilterKind::BandPass => Biquad::band_pass(m, self.hz, self.q, sample_rate),
                    FilterKind::Notch => Biquad::notch(m, self.hz, self.q, sample_rate),
                    FilterKind::AllPass => Biquad::all_pass(m, self.hz, self.q, sample_rate),
                }
            }),
    {
        if self.is_transparent() {
            return Biquad::identity();
        }
        match self.kind {
            FilterKind::Peaking => Biquad::peaking(m, self.hz, self.q, self.gain_db, sample_rate),
            FilterKind::LowShelf => Biquad::low_shelf(
                m,
                self.hz,
                self.q,
                self.gain_db,
                sample_rate,
            ),
            FilterKind::HighShelf => Biquad::high_shelf(
                m,
                self.hz,
                self.q,
                self.gain_db,
                sample_rate,
            ),
            FilterKind::LowPass => Biquad::low_pass(m, self.hz, self.q, sample_rate),
            FilterKind::HighPass => Biquad::high_pass(m, self.hz, self.q, sample_rate),
            FilterKind::BandPass => Biquad::band_pass(m, self.hz, self.q, sample_rate),
            FilterKind::Notch => Biquad::notch(m, self.hz, self.q, sample_rate),
            FilterKind::AllPass => Biquad::all_pass(m, self.hz, self.q, sample_rate),
        }
    }
}

/// A band above Nyquist becomes a pass-through, whatever its shape: a preset written
/// at a higher sample rate is still mostly useful.
pub proof fn lemma_band_above_nyquist_passes<C: Fn(Calc) -> F32>(
    m: &Arith<C>,
    band: FilterBand,
    sample_rate: F32,
)
    requires
        m.times(m.times(sample_rate, num(HALF)), num(biquad::BELOW_NYQUIST)).le(band.hz),
    ensures
        band.design(m, sample_rate) == Biquad::identity(),
{
}

/// A level in decibels as a linear ratio.
#[verifier::allow_in_spec]
pub fn linear<C: Fn(Calc) -> F32>(m: &Arith<C>, db: F32) -> F32
    returns
        m.power(num(TEN), m.over(db, num(TWENTY))),
{
    m.power(num(TEN), m.over(db, num(TWENTY)))
}

/// A linear ratio as a level in decibels.
#[verifier::allow_in_spec]
pub fn decibels<C: Fn(Calc) -> F32>(m: &Arith<C>, ratio: F32) -> F32
    returns
        m.times(num(TWENTY), m.log10(ratio.max(num(LEAST_RATIO)))),
{
    m.times(num(TWENTY), m.log10(ratio.max(num(LEAST_RATIO))))
}

/// Where a shelf turns on one side of its frequency: where a frequency lies whose
/// warped place is `by` times that of `hz`.
#[verifier::allow_in_spec]
pub fn turned<C: Fn(Calc) -> F32>(m: &Arith<C>, hz: F32, by: F32, sample_rate: F32) -> F32
    returns
        m.over(
            m.times(
                sample_rate,
                m.angle(
                    m.times(m.tangent(m.over(m.times(num(PI), hz), sample_rate)), by),
                    num(ONE),
                ),
            ),
            num(PI),
        ),
{
    let place = m.tangent(m.over(m.times(num(PI), hz), sample_rate));
    m.over(m.times(sample_rate, m.angle(m.times(place, by), num(ONE))), num(PI))
}

/// How far ring `k` stands off its centre, as a fraction of it.
#[verifier::allow_in_spec]
pub fn ring_width<C: Fn(Calc) -> F32>(m: &Arith<C>, k: usize) -> F32
    returns
        m.times(num(HALF), m.power(num(RING_RATIO), m.count(k))),
{
    m.times(num(HALF), m.power(num(RING_RATIO), m.count(k)))
}

/// The points that close in on a centre: below it, above it, and the centre itself.
///
/// A peak is as narrow as its poles are close, so the gain changes the slower the
/// farther off one looks. Points whose distance from each other keeps pace with their
/// distance from the centre therefore miss nothing, however narrow a band is.
pub open spec fn around<C: Fn(Calc) -> F32>(m: Arith<C>, centre: F32) -> Seq<F32> {
    Seq::new(
        RINGS as nat,
        |k: int| m.times(centre, m.minus(num(ONE), ring_width(&m, k as usize))),
    ) + Seq::new(
        RINGS as nat,
        |k: int| m.times(centre, m.plus(num(ONE), ring_width(&m, k as usize))),
    ) + seq![centre]
}

/// The points around a band at which the gain is sampled. A shelf turns on either side
/// of its frequency, every other shape on the frequency; a band that changes nothing
/// needs none.
pub open spec fn band_probes<C: Fn(Calc) -> F32>(
    m: Arith<C>,
    band: FilterBand,
    sample_rate: F32,
) -> Seq<F32> {
    let spread = m.root(biquad::amplitude(&m, band.gain_db));
    if band.is_transparent() {
        Seq::empty()
    } else {
        match band.kind {
            FilterKind::LowShelf | FilterKind::HighShelf => around(
                m,
                turned(&m, band.hz, m.over(num(ONE), spread), sample_rate),
            ) + around(m, turned(&m, band.hz, spread, sample_rate)) + around(m, band.hz),
            _ => around(m, band.hz),
        }
    }
}

/// Append the points that close in on a centre.
fn push_around<C: Fn(Calc) -> F32>(m: &Arith<C>, centre: F32, probes: &mut Vec<F32>)
    ensures
        final(probes)@ == old(probes)@ + around(*m, centre),
{
    let ghost before = probes@;
    let ghost below = Seq::new(
        RINGS as nat,
        |k: int| m.times(centre, m.minus(num(ONE), ring_width(m, k as usize))),
    );
    let ghost above = Seq::new(
        RINGS as nat,
        |k: int| m.times(centre, m.plus(num(ONE), ring_width(m, k as usize))),
    );
    let mut k: usize = 0;
    assert(before + below.take(0) =~= before);
    while k < RINGS
        invariant
            k <= RINGS,
            below == Seq::new(
                RINGS as nat,
                |k: int| m.times(centre, m.minus(num(ONE), ring_width(m, k as usize))),
            ),
            probes@ == before + below.take(k as int),
        decreases RINGS - k,
    {
        probes.push(m.times(centre, m.minus(num(ONE), ring_width(m, k))));
        k = k + 1;
        assert(before + below.take(k as int) =~= (before + below.take(k - 1)).push(below[k - 1]));
    }
    assert(below.take(k as int) =~= below);
    let mut k: usize = 0;
    assert(before + below + above.take(0) =~= before + below);
    while k < RINGS
        invariant
            k <= RINGS,
            above == Seq::new(
                RINGS as nat,
                |k: int| m.times(centre, m.plus(num(ONE), ring_width(m, k as usize))),
            ),
            probes@ == before + below + above.take(k as int),
        decreases RINGS - k,
    {
        probes.push(m.times(centre, m.plus(num(ONE), ring_width(m, k))));
        k = k + 1;
        assert(before + below + above.take(k as int) =~= (before + below + above.take(k - 1)).push(
            above[k - 1],
        ));
    }
    assert(above.take(k as int) =~= above);
    probes.push(centre);
    assert(probes@ =~= before + around(*m, centre));
}

/// Append the points around a band.
fn push_band_probes<C: Fn(Calc) -> F32>(
    m: &Arith<C>,
    band: FilterBand,
    sample_rate: F32,
    probes: &mut Vec<F32>,
)
    ensures
        final(probes)@ == old(probes)@ + band_probes(*m, band, sample_rate),
{
    let ghost before = probes@;
    if band.is_transparent() {
        assert(before + Seq::<F32>::empty() =~= before);
        return;
    }
    match band.kind {
        FilterKind::LowShelf | FilterKind::HighShelf => {
            let spread = m.root(biquad::amplitude(m, band.gain_db));
            push_around(m, turned(m, band.hz, m.over(num(ONE), spread), sample_rate), probes);
            push_around(m, turned(m, band.hz, spread, sample_rate), probes);
        },
        _ => {},
    }
    push_around(m, band.hz, probes);
    assert(probes@ =~= before + band_probes(*m, band, sample_rate));
}

/// A section reshaped to a design. What it remembers is left alone, so that a fader
/// move does not click.
#[verifier::allow_in_spec]
pub fn reshaped(section: Biquad, designed: Biquad) -> Biquad
    returns
        (Biquad { s1: section.s1, s2: section.s2, ..designed }),
{
    Biquad { s1: section.s1, s2: section.s2, ..designed }
}

/// What running samples through the first sections of a cascade comes to.
#[verifier::ext_equal]
pub struct Cascade {
    pub sections: Seq<Biquad>,
    pub samples: Seq<F32>,
}

/// Samples run through the first `n` sections, one section after the other.
pub open spec fn cascaded<C: Fn(Calc) -> F32>(
    m: Arith<C>,
    sections: Seq<Biquad>,
    samples: Seq<F32>,
    n: nat,
) -> Cascade
    decreases n,
{
    if n == 0 {
        Cascade { sections, samples }
    } else {
        let before = cascaded(m, sections, samples, (n - 1) as nat);
        let run = sections[n - 1].filtered(m, before.samples);
        Cascade { sections: before.sections.update(n - 1, run.section), samples: run.samples }
    }
}

/// What an equaliser amounts to.
#[verifier::ext_equal]
pub struct EqModel {
    pub bands: Seq<FilterBand>,
    pub sections: Seq<Biquad>,
    pub sample_rate: F32,
    pub preamp_db: F32,
}

impl EqModel {
    /// Whether every section is shaped as its band says.
    pub open spec fn designed<C: Fn(Calc) -> F32>(self, m: &Arith<C>) -> bool {
        &&& self.sections.len() == self.bands.len()
        &&& forall|i: int|
            0 <= i < self.bands.len() ==> (#[trigger] self.sections[i]).same_shape(
                self.bands[i].design(m, self.sample_rate),
            )
    }

    /// The response of the preamp and the first `n` sections at `hz`. Sections
    /// multiply: their levels and their phases add.
    pub open spec fn response_upto<C: Fn(Calc) -> F32>(self, m: Arith<C>, hz: F32, n: nat) -> Complex
        decreases n,
    {
        if n == 0 {
            on_axis(linear(&m, self.preamp_db))
        } else {
            m.product(
                self.response_upto(m, hz, (n - 1) as nat),
                self.sections[n - 1].spec_response_at(m, hz, self.sample_rate),
            )
        }
    }

    /// The response of the whole cascade at `hz`.
    pub open spec fn response<C: Fn(Calc) -> F32>(self, m: Arith<C>, hz: F32) -> Complex {
        self.response_upto(m, hz, self.sections.len())
    }

    /// The magnitude of the whole cascade at `hz`, in decibels.
    pub open spec fn magnitude_db<C: Fn(Calc) -> F32>(self, m: Arith<C>, hz: F32) -> F32 {
        decibels(&m, m.norm(self.response(m, hz)))
    }

    /// The top of the sampled range: Nyquist, or the top of the audio band.
    pub open spec fn top_hz<C: Fn(Calc) -> F32>(self, m: Arith<C>) -> F32 {
        m.times(self.sample_rate, num(HALF)).spec_min(num(TOP_HZ))
    }

    /// Point `i` of the grid at which the gain is sampled.
    pub open spec fn grid_hz<C: Fn(Calc) -> F32>(self, m: Arith<C>, i: int) -> F32 {
        m.times(
            num(TEN),
            m.exp(
                m.over(
                    m.times(m.ln(m.over(self.top_hz(m), num(TEN))), m.count(i as usize)),
                    m.count((GRID_POINTS - 1) as usize),
                ),
            ),
        ).spec_min(self.top_hz(m))
    }

    /// The frequencies at which the gain is sampled for the first `n` bands: the grid,
    /// and the points around every one of these bands that does anything.
    pub open spec fn probes_upto<C: Fn(Calc) -> F32>(self, m: Arith<C>, n: nat) -> Seq<F32>
        decreases n,
    {
        if n == 0 {
            Seq::new(GRID_POINTS as nat, |i: int| self.grid_hz(m, i))
        } else {
            self.probes_upto(m, (n - 1) as nat) + band_probes(
                m,
                self.bands[n - 1],
                self.sample_rate,
            )
        }
    }

    /// The frequencies at which the gain is sampled.
    pub open spec fn probes<C: Fn(Calc) -> F32>(self, m: Arith<C>) -> Seq<F32> {
        self.probes_upto(m, self.bands.len())
    }

    /// Whether a frequency lies in the audio band, which starts at ten hertz.
    pub open spec fn audible<C: Fn(Calc) -> F32>(self, m: Arith<C>, hz: F32) -> bool {
        num(TEN).at_most(hz) && hz.at_most(self.top_hz(m))
    }

    /// The largest gain at those of some frequencies that lie in the audio band.
    pub open spec fn loudest<C: Fn(Calc) -> F32>(self, m: Arith<C>, probes: Seq<F32>) -> F32
        decreases probes.len(),
    {
        if probes.len() == 0 {
            num(MINUS_INFINITY)
        } else if self.audible(m, probes.last()) {
            self.loudest(m, probes.drop_last()).spec_max(self.magnitude_db(m, probes.last()))
        } else {
            self.loudest(m, probes.drop_last())
        }
    }

    /// The largest gain that the cascade applies at any sampled frequency of the audio
    /// band. Where there is no audio band, the preamp is all there is.
    pub open spec fn peak_gain<C: Fn(Calc) -> F32>(self, m: Arith<C>) -> F32 {
        if self.top_hz(m).le(num(TEN)) {
            self.preamp_db
        } else {
            self.loudest(m, self.probes(m))
        }
    }

    /// A band replaced. A band that is set alike already, and one that is not there,
    /// leaves everything as it is.
    pub open spec fn with_band<C: Fn(Calc) -> F32>(
        self,
        m: Arith<C>,
        index: int,
        band: FilterBand,
    ) -> EqModel {
        if index >= self.bands.len() || self.bands[index].same(band) {
            self
        } else {
            EqModel {
                bands: self.bands.update(index, band),
                sections: self.sections.update(
                    index,
                    reshaped(self.sections[index], band.design(&m, self.sample_rate)),
                ),
                ..self
            }
        }
    }

    /// A band's gain set, to zero where the gain is not finite.
    pub open spec fn with_gain<C: Fn(Calc) -> F32>(
        self,
        m: Arith<C>,
        index: int,
        gain_db: F32,
    ) -> EqModel {
        if index >= self.bands.len() {
            self
        } else {
            self.with_band(
                m,
                index,
                FilterBand {
                    gain_db: if gain_db.finite() {
                        gain_db
                    } else {
                        num(ZERO)
                    },
                    ..self.bands[index]
                },
            )
        }
    }

    /// The gains of the first `n` bands set to zero.
    pub open spec fn flattened<C: Fn(Calc) -> F32>(self, m: Arith<C>, n: nat) -> EqModel
        decreases n,
    {
        if n == 0 {
            self
        } else {
            self.flattened(m, (n - 1) as nat).with_gain(m, n - 1, num(ZERO))
        }
    }

    /// Every section reshaped to its band.
    pub open spec fn redesigned<C: Fn(Calc) -> F32>(self, m: Arith<C>) -> EqModel {
        EqModel {
            sections: Seq::new(
                self.bands.len(),
                |i: int|
                    reshaped(self.sections[i], self.bands[i].design(&m, self.sample_rate)),
            ),
            ..self
        }
    }

    /// The samples that come out for samples that go in.
    pub open spec fn processed<C: Fn(Calc) -> F32>(self, m: Arith<C>, samples: Seq<F32>) -> Seq<
        F32,
    > {
        let run = cascaded(m, self.sections, samples, self.sections.len()).samples;
        let trim = linear(&m, self.preamp_db);
        if trim.same(num(ONE)) {
            run
        } else {
            Seq::new(run.len(), |i: int| m.times(run[i], trim))
        }
    }

    /// The equaliser once samples have gone in.
    pub open spec fn advanced<C: Fn(Calc) -> F32>(self, m: Arith<C>, samples: Seq<F32>) -> EqModel {
        EqModel {
            sections: cascaded(m, self.sections, samples, self.sections.len()).sections,
            ..self
        }
    }
}

/// A cascade of bands.
///
/// Coefficients are designed once, when a band changes, not per sample and not per
/// query.
#[derive(Debug, Clone)]
pub struct Equaliser {
    bands: Vec<FilterBand>,
    sections: Vec<Biquad>,
    sample_rate: F32,
    /// Applied after the cascade, for trimming the gain the bands added.
    preamp_db: F32,
}

impl View for Equaliser {
    type V = EqModel;

    closed spec fn view(&self) -> EqModel {
        EqModel {
            bands: self.bands@,
            sections: self.sections@,
            sample_rate: self.sample_rate,
            preamp_db: self.preamp_db,
        }
    }
}

/// An equaliser as it is made: every section designed, nothing remembered, no
/// preamp.
pub open spec fn fresh<C: Fn(Calc) -> F32>(
    m: Arith<C>,
    sample_rate: F32,
    bands: Seq<FilterBand>,
) -> EqModel {
    EqModel {
        bands,
        sections: Seq::new(bands.len(), |i: int| bands[i].design(&m, sample_rate)),
        sample_rate,
        preamp_db: num(ZERO),
    }
}

fn designs<C: Fn(Calc) -> F32>(m: &Arith<C>, sample_rate: F32, bands: &[FilterBand]) -> (sections:
    Vec<Biquad>)
    ensures
        sections@ == Seq::new(bands@.len(), |i: int| bands@[i].design(m, sample_rate)),
{
    let mut sections: Vec<Biquad> = Vec::new();
    let mut i: usize = 0;
    while i < bands.len()
        invariant
            i <= bands@.len(),
            sections@.len() == i,
            forall|k: int|
                0 <= k < i ==> #[trigger] sections@[k] == bands@[k].design(m, sample_rate),
        decreases bands@.len() - i,
    {
        sections.push(bands[i].design(m, sample_rate));
        i = i + 1;
    }
    assert(sections@ =~= Seq::new(bands@.len(), |i: int| bands@[i].design(m, sample_rate)));
    sections
}

impl Equaliser {
    /// An equaliser with the given bands.
    pub fn new<C: Fn(Calc) -> F32>(m: &Arith<C>, sample_rate: F32, bands: Vec<FilterBand>) -> (eq:
        Equaliser)
        ensures
            eq@ == fresh(*m, sample_rate, bands@),
            eq@.designed(m),
    {
        let sections = designs(m, sample_rate, bands.as_slice());
        Equaliser { bands, sections, sample_rate, preamp_db: num(ZERO) }
    }

    /// A ten-band graphic equaliser on the octave centres, all flat.
    pub fn graphic<C: Fn(Calc) -> F32>(m: &Arith<C>, sample_rate: F32) -> (eq: Equaliser)
        ensures
            eq@ == fresh(
                *m,
                sample_rate,
                Seq::new(
                    10,
                    |i: int|
                        FilterBand::peaking(num(OCTAVE_CENTRES[i]), num(ZERO), num(OCTAVE_Q)),
                ),
            ),
            eq@.designed(m),
    {
        let mut bands: Vec<FilterBand> = Vec::new();
        let mut i: usize = 0;
        while i < 10
            invariant
                i <= 10,
                bands@.len() == i,
                forall|k: int|
                    0 <= k < i ==> #[trigger] bands@[k] == FilterBand::peaking(
                        num(OCTAVE_CENTRES[k]),
                        num(ZERO),
                        num(OCTAVE_Q),
                    ),
            decreases 10 - i,
        {
            bands.push(FilterBand::peaking(num(OCTAVE_CENTRES[i]), num(ZERO), num(OCTAVE_Q)));
            i = i + 1;
        }
        assert(bands@ =~= Seq::new(
            10,
            |i: int| FilterBand::peaking(num(OCTAVE_CENTRES[i]), num(ZERO), num(OCTAVE_Q)),
        ));
        Self::new(m, sample_rate, bands)
    }

    /// An empty parametric equaliser.
    pub fn parametric<C: Fn(Calc) -> F32>(m: &Arith<C>, sample_rate: F32) -> (eq: Equaliser)
        ensures
            eq@ == fresh(*m, sample_rate, Seq::empty()),
            eq@.designed(m),
    {
        Self::new(m, sample_rate, Vec::new())
    }

    pub fn bands(&self) -> (bands: &[FilterBand])
        ensures
            bands@ == self@.bands,
    {
        self.bands.as_slice()
    }

    pub fn sample_rate(&self) -> (rate: F32)
        ensures
            rate == self@.sample_rate,
    {
        self.sample_rate
    }

    pub fn preamp_db(&self) -> (db: F32)
        ensures
            db == self@.preamp_db,
    {
        self.preamp_db
    }

    /// Set the output trim, in decibels; to zero where it is not finite.
    pub fn set_preamp_db(&mut self, db: F32)
        ensures
            final(self)@ == (EqModel {
                preamp_db: if db.finite() {
                    db
                } else {
                    num(ZERO)
                },
                ..old(self)@
            }),
    {
        self.preamp_db = if db.is_finite() {
            db
        } else {
            num(ZERO)
        };
    }

    /// Replace a band. Out-of-range indices are ignored.
    pub fn set_band<C: Fn(Calc) -> F32>(&mut self, m: &Arith<C>, index: usize, band: FilterBand)
        requires
            old(self)@.designed(m),
        ensures
            final(self)@ == old(self)@.with_band(*m, index as int, band),
            final(self)@.designed(m),
    {
        if index >= self.bands.len() {
            return;
        }
        if self.bands[index].same(band) {
            return;
        }
        self.bands.set(index, band);
        let section = reshaped(self.sections[index], band.design(m, self.sample_rate));
        self.sections.set(index, section);
    }

    /// Set just a band's gain, which is all a graphic equaliser can do.
    pub fn set_gain_db<C: Fn(Calc) -> F32>(&mut self, m: &Arith<C>, index: usize, gain_db: F32)
        requires
            old(self)@.designed(m),
        ensures
            final(self)@ == old(self)@.with_gain(*m, index as int, gain_db),
            final(self)@.designed(m),
    {
        if index >= self.bands.len() {
            return;
        }
        let band = self.bands[index];
        let gain_db = if gain_db.is_finite() {
            gain_db
        } else {
            num(ZERO)
        };
        self.set_band(m, index, FilterBand { gain_db, ..band });
    }

    /// Append a band and return its index.
    pub fn push_band<C: Fn(Calc) -> F32>(&mut self, m: &Arith<C>, band: FilterBand) -> (index: usize)
        requires
            old(self)@.designed(m),
        ensures
            index == old(self)@.bands.len(),
            final(self)@ == (EqModel {
                bands: old(self)@.bands.push(band),
                sections: old(self)@.sections.push(band.design(m, old(self)@.sample_rate)),
                ..old(self)@
            }),
            final(self)@.designed(m),
    {
        self.bands.push(band);
        self.sections.push(band.design(m, self.sample_rate));
        self.bands.len() - 1
    }

    /// Remove a band. Out-of-range indices are ignored.
    pub fn remove_band<C: Fn(Calc) -> F32>(&mut self, m: &Arith<C>, index: usize)
        requires
            old(self)@.designed(m),
        ensures
            final(self)@ == if index < old(self)@.bands.len() {
                EqModel {
                    bands: old(self)@.bands.remove(index as int),
                    sections: old(self)@.sections.remove(index as int),
                    ..old(self)@
                }
            } else {
                old(self)@
            },
            final(self)@.designed(m),
    {
        if index >= self.bands.len() {
            return;
        }
        self.bands.remove(index);
        self.sections.remove(index);
        assert forall|i: int| 0 <= i < self@.bands.len() implies (
        #[trigger] self@.sections[i]).same_shape(self@.bands[i].design(m, self@.sample_rate)) by {
            let from = if i < index {
                i
            } else {
                i + 1
            };
            assert(old(self)@.sections[from].same_shape(
                old(self)@.bands[from].design(m, self@.sample_rate),
            ));
        }
    }

    /// Change the sample rate, redesigning every section. A rate that is not
    /// positive, and the one already in use, is ignored.
    pub fn set_sample_rate<C: Fn(Calc) -> F32>(&mut self, m: &Arith<C>, sample_rate: F32)
        requires
            old(self)@.designed(m),
        ensures
            final(self)@ == if sample_rate.le(num(ZERO)) || sample_rate.same(
                old(self)@.sample_rate,
            ) {
                old(self)@
            } else {
                (EqModel { sample_rate, ..old(self)@ }).redesigned(*m)
            },
            final(self)@.designed(m),
    {
        if sample_rate.le(num(ZERO)) || sample_rate.same(self.sample_rate) {
            return;
        }
        self.sample_rate = sample_rate;
        self.redesign(m);
    }

    /// Set every band at once.
    pub fn set_bands<C: Fn(Calc) -> F32>(&mut self, m: &Arith<C>, bands: Vec<FilterBand>)
        ensures
            final(self)@ == (EqModel {
                preamp_db: old(self)@.preamp_db,
                ..fresh(*m, old(self)@.sample_rate, bands@)
            }),
            final(self)@.designed(m),
    {
        self.sections = designs(m, self.sample_rate, bands.as_slice());
        self.bands = bands;
    }

    /// Complex response of the whole cascade at `hz`, including the preamp.
    pub fn response_at<C: Fn(Calc) -> F32>(&self, m: &Arith<C>, hz: F32) -> (response: Complex)
        ensures
            response == self@.response(*m, hz),
    {
        let mut response = on_axis(linear(m, self.preamp_db));
        let mut i: usize = 0;
        while i < self.sections.len()
            invariant
                i <= self.sections@.len(),
                response == self@.response_upto(*m, hz, i as nat),
            decreases self.sections@.len() - i,
        {
            let section = self.sections[i];
            response = m.product(response, section.response_at(m, hz, self.sample_rate));
            i = i + 1;
        }
        response
    }

    /// Magnitude of the whole cascade at `hz`, in decibels.
    pub fn magnitude_db_at<C: Fn(Calc) -> F32>(&self, m: &Arith<C>, hz: F32) -> (db: F32)
        ensures
            db == self@.magnitude_db(*m, hz),
    {
        decibels(m, m.norm(self.response_at(m, hz)))
    }

    /// Magnitude of one band at `hz`, in decibels; zero for a band that is not there.
    pub fn band_magnitude_db_at<C: Fn(Calc) -> F32>(&self, m: &Arith<C>, index: usize, hz: F32) -> (db:
        F32)
        ensures
            db == if index < self@.sections.len() {
                decibels(
                    m,
                    m.norm(
                        self@.sections[index as int].spec_response_at(*m, hz, self@.sample_rate),
                    ),
                )
            } else {
                num(ZERO)
            },
    {
        if index < self.sections.len() {
            let section = self.sections[index];
            decibels(m, section.magnitude_at(m, hz, self.sample_rate))
        } else {
            num(ZERO)
        }
    }

    /// Write the combined magnitude, in decibels, for each frequency, as far as both
    /// reach.
    pub fn write_magnitude_db<C: Fn(Calc) -> F32>(
        &self,
        m: &Arith<C>,
        frequencies: &[F32],
        out: &mut [F32],
    )
        ensures
            final(out)@ == Seq::new(
                old(out)@.len(),
                |i: int|
                    if i < frequencies@.len() {
                        self@.magnitude_db(*m, frequencies@[i])
                    } else {
                        old(out)@[i]
                    },
            ),
    {
        let n: usize = out.len();
        let ghost before = out@;
        let mut i: usize = 0;
        while i < n && i < frequencies.len()
            invariant
                i <= n,
                i <= frequencies@.len(),
                n == out@.len(),
                n == before.len(),
                forall|k: int|
                    0 <= k < i ==> #[trigger] out@[k] == self@.magnitude_db(*m, frequencies@[k]),
                forall|k: int| i <= k < n ==> #[trigger] out@[k] == before[k],
            decreases n - i,
        {
            out[i] = self.magnitude_db_at(m, frequencies[i]);
            i = i + 1;
        }
        assert(out@ =~= Seq::new(
            before.len(),
            |i: int|
                if i < frequencies@.len() {
                    self@.magnitude_db(*m, frequencies@[i])
                } else {
                    before[i]
                },
        ));
    }

    /// Write the combined phase, in degrees, for each frequency, as far as both reach.
    pub fn write_phase_degrees<C: Fn(Calc) -> F32>(
        &self,
        m: &Arith<C>,
        frequencies: &[F32],
        out: &mut [F32],
    )
        ensures
            final(out)@ == Seq::new(
                old(out)@.len(),
                |i: int|
                    if i < frequencies@.len() {
                        m.degrees(m.arg(self@.response(*m, frequencies@[i])))
                    } else {
                        old(out)@[i]
                    },
            ),
    {
        let n: usize = out.len();
        let ghost before = out@;
        let mut i: usize = 0;
        while i < n && i < frequencies.len()
            invariant
                i <= n,
                i <= frequencies@.len(),
                n == out@.len(),
                n == before.len(),
                forall|k: int|
                    0 <= k < i ==> #[trigger] out@[k] == m.degrees(
                        m.arg(self@.response(*m, frequencies@[k])),
                    ),
                forall|k: int| i <= k < n ==> #[trigger] out@[k] == before[k],
            decreases n - i,
        {
            out[i] = m.degrees(m.arg(self.response_at(m, frequencies[i])));
            i = i + 1;
        }
        assert(out@ =~= Seq::new(
            before.len(),
            |i: int|
                if i < frequencies@.len() {
                    m.degrees(m.arg(self@.response(*m, frequencies@[i])))
                } else {
                    before[i]
                },
        ));
    }

    /// The frequencies at which the gain is sampled.
    fn probes<C: Fn(Calc) -> F32>(&self, m: &Arith<C>) -> (probes: Vec<F32>)
        ensures
            probes@ == self@.probes(*m),
    {
        let low = num(TEN);
        let high = m.times(self.sample_rate, num(HALF)).min(num(TOP_HZ));
        let ratio = m.ln(m.over(high, low));
        let ghost grid = Seq::new(GRID_POINTS as nat, |i: int| self@.grid_hz(*m, i));
        let mut probes: Vec<F32> = Vec::new();
        let mut i: usize = 0;
        while i < GRID_POINTS
            invariant
                i <= GRID_POINTS,
                low == num(TEN),
                high == self@.top_hz(*m),
                ratio == m.ln(m.over(high, low)),
                grid == Seq::new(GRID_POINTS as nat, |i: int| self@.grid_hz(*m, i)),
                probes@ =~= grid.take(i as int),
            decreases GRID_POINTS - i,
        {
            let hz = m.times(
                low,
                m.exp(m.over(m.times(ratio, m.count(i)), m.count(GRID_POINTS - 1))),
            );
            probes.push(hz.min(high));
            i = i + 1;
        }
        assert(probes@ =~= self@.probes_upto(*m, 0));
        let n: usize = self.bands.len();
        let mut i: usize = 0;
        while i < n
            invariant
                i <= n,
                n == self.bands@.len(),
                probes@ == self@.probes_upto(*m, i as nat),
            decreases n - i,
        {
            push_band_probes(m, self.bands[i], self.sample_rate, &mut probes);
            i = i + 1;
        }
        probes
    }

    /// The largest gain the cascade applies anywhere in the audio band.
    ///
    /// Sampled rather than solved: on a grid with even steps per octave, and on points
    /// that close in on every band. A peak between two of these points differs from the
    /// true maximum by well under a tenth of a decibel, which is the least that anyone
    /// can act on, however narrow the bands are.
    pub fn peak_gain_db<C: Fn(Calc) -> F32>(&self, m: &Arith<C>) -> (db: F32)
        ensures
            db == self@.peak_gain(*m),
    {
        let low = num(TEN);
        let high = m.times(self.sample_rate, num(HALF)).min(num(TOP_HZ));
        if high.le(low) {
            return self.preamp_db;
        }
        let probes = self.probes(m);
        let mut peak = num(MINUS_INFINITY);
        let n: usize = probes.len();
        let mut i: usize = 0;
        while i < n
            invariant
                i <= n,
                n == probes@.len(),
                low == num(TEN),
                high == self@.top_hz(*m),
                peak == self@.loudest(*m, probes@.take(i as int)),
            decreases n - i,
        {
            let hz = probes[i];
            if low.le(hz) && hz.le(high) {
                peak = peak.max(self.magnitude_db_at(m, hz));
            }
            i = i + 1;
            assert(probes@.take(i as int).drop_last() =~= probes@.take(i - 1));
        }
        assert(probes@.take(i as int) =~= probes@);
        peak
    }

    /// Set the preamp so the cascade's loudest point sits at unity.
    ///
    /// Never automatic: quietly moving a level the user set is worse than showing
    /// them the number.
    pub fn trim_to_unity<C: Fn(Calc) -> F32>(&mut self, m: &Arith<C>)
        ensures
            final(self)@ == {
                let peak = old(self)@.peak_gain(*m);
                if peak.finite() && num(LEAST_TRIM_DB).lt(peak) {
                    EqModel { preamp_db: m.minus(old(self)@.preamp_db, peak), ..old(self)@ }
                } else {
                    old(self)@
                }
            },
            old(self)@.designed(m) ==> final(self)@.designed(m),
    {
        let peak = self.peak_gain_db(m);
        if peak.is_finite() && num(LEAST_TRIM_DB).lt(peak) {
            self.preamp_db = m.minus(self.preamp_db, peak);
        }
    }

    /// Filter a block in place.
    pub fn process<C: Fn(Calc) -> F32>(&mut self, m: &Arith<C>, samples: &mut [F32])
        ensures
            final(samples)@ == old(self)@.processed(*m, old(samples)@),
            final(self)@ == old(self)@.advanced(*m, old(samples)@),
            old(self)@.designed(m) ==> final(self)@.designed(m),
    {
        let ghost input = samples@;
        let n: usize = self.sections.len();
        let mut i: usize = 0;
        while i < n
            invariant
                i <= n,
                n == self.sections@.len(),
                n == old(self).sections@.len(),
                self.bands == old(self).bands,
                self.sample_rate == old(self).sample_rate,
                self.preamp_db == old(self).preamp_db,
                forall|k: int|
                    i <= k < n ==> #[trigger] self.sections@[k] == old(self).sections@[k],
                (Cascade { sections: self.sections@, samples: samples@ }) == cascaded(
                    *m,
                    old(self).sections@,
                    input,
                    i as nat,
                ),
            decreases n - i,
        {
            let ghost before = self.sections@;
            let mut section = self.sections[i];
            section.process_block(m, samples);
            self.sections.set(i, section);
            i = i + 1;
            assert(self.sections@ =~= before.update(i - 1, section));
        }
        proof {
            lemma_cascading_keeps_shapes(*m, old(self).sections@, input, n as nat);
            lemma_shapes_keep_the_design(*m, old(self)@, self@);
        }
        let ghost run = samples@;
        let trim = linear(m, self.preamp_db);
        if !trim.same(num(ONE)) {
            let count: usize = samples.len();
            let mut k: usize = 0;
            while k < count
                invariant
                    k <= count,
                    count == samples@.len(),
                    count == run.len(),
                    forall|j: int| 0 <= j < k ==> #[trigger] samples@[j] == m.times(run[j], trim),
                    forall|j: int| k <= j < count ==> #[trigger] samples@[j] == run[j],
                decreases count - k,
            {
                samples[k] = m.times(samples[k], trim);
                k = k + 1;
            }
            assert(samples@ =~= Seq::new(run.len(), |i: int| m.times(run[i], trim)));
        }
    }

    /// Clear every section's delay line.
    pub fn reset(&mut self)
        ensures
            final(self)@ == (EqModel {
                sections: Seq::new(
                    old(self)@.sections.len(),
                    |i: int|
                        Biquad { s1: num(ZERO), s2: num(ZERO), ..old(self)@.sections[i] },
                ),
                ..old(self)@
            }),
    {
        let n: usize = self.sections.len();
        let mut i: usize = 0;
        while i < n
            invariant
                i <= n,
                n == self.sections@.len(),
                n == old(self).sections@.len(),
                self.bands == old(self).bands,
                self.sample_rate == old(self).sample_rate,
                self.preamp_db == old(self).preamp_db,
                forall|k: int|
                    0 <= k < i ==> #[trigger] self.sections@[k] == (Biquad {
                        s1: num(ZERO),
                        s2: num(ZERO),
                        ..old(self).sections@[k]
                    }),
                forall|k: int|
                    i <= k < n ==> #[trigger] self.sections@[k] == old(self).sections@[k],
            decreases n - i,
        {
            let mut section = self.sections[i];
            section.reset();
            self.sections.set(i, section);
            i = i + 1;
        }
        assert(self.sections@ =~= Seq::new(
            old(self)@.sections.len(),
            |i: int| Biquad { s1: num(ZERO), s2: num(ZERO), ..old(self)@.sections[i] },
        ));
    }

    /// Set every gain to zero, leaving frequencies and quality factors alone.
    pub fn flatten<C: Fn(Calc) -> F32>(&mut self, m: &Arith<C>)
        requires
            old(self)@.designed(m),
        ensures
            final(self)@ == (EqModel {
                preamp_db: num(ZERO),
                ..old(self)@.flattened(*m, old(self)@.bands.len())
            }),
            final(self)@.designed(m),
    {
        let n: usize = self.bands.len();
        let mut i: usize = 0;
        while i < n
            invariant
                i <= n,
                n == self.bands@.len(),
                self@.designed(m),
                self@ == old(self)@.flattened(*m, i as nat),
            decreases n - i,
        {
            self.set_gain_db(m, i, num(ZERO));
            i = i + 1;
        }
        self.preamp_db = num(ZERO);
    }

    /// Reshape every section to its band.
    fn redesign<C: Fn(Calc) -> F32>(&mut self, m: &Arith<C>)
        requires
            old(self)@.sections.len() == old(self)@.bands.len(),
        ensures
            final(self)@ == old(self)@.redesigned(*m),
            final(self)@.designed(m),
    {
        let n: usize = self.bands.len();
        let mut i: usize = 0;
        while i < n
            invariant
                i <= n,
                n == self.bands@.len(),
                n == self.sections@.len(),
                n == old(self).sections@.len(),
                self.bands == old(self).bands,
                self.sample_rate == old(self).sample_rate,
                self.preamp_db == old(self).preamp_db,
                forall|k: int|
                    0 <= k < i ==> #[trigger] self.sections@[k] == reshaped(
                        old(self).sections@[k],
                        self.bands@[k].design(m, self.sample_rate),
                    ),
                forall|k: int|
                    i <= k < n ==> #[trigger] self.sections@[k] == old(self).sections@[k],
            decreases n - i,
        {
            let section = reshaped(
                self.sections[i],
                self.bands[i].design(m, self.sample_rate),
            );
            self.sections.set(i, section);
            i = i + 1;
        }
        assert(self@ =~= old(self)@.redesigned(*m));
    }
}

proof fn lemma_cascade_runs_each_section<C: Fn(Calc) -> F32>(
    m: Arith<C>,
    sections: Seq<Biquad>,
    samples: Seq<F32>,
    n: nat,
    i: int,
)
    requires
        n <= sections.len(),
        0 <= i < sections.len(),
    ensures
        cascaded(m, sections, samples, n).sections.len() == sections.len(),
        cascaded(m, sections, samples, n).sections[i] == if i < n {
            sections[i].filtered(m, cascaded(m, sections, samples, i as nat).samples).section
        } else {
            sections[i]
        },
    decreases n,
{
    if n > 0 {
        lemma_cascade_runs_each_section(m, sections, samples, (n - 1) as nat, i);
    }
}

proof fn lemma_cascade_in_blocks<C: Fn(Calc) -> F32>(
    m: Arith<C>,
    sections: Seq<Biquad>,
    first: Seq<F32>,
    second: Seq<F32>,
    n: nat,
)
    requires
        n <= sections.len(),
    ensures
        ({
            let after = cascaded(m, sections, first, sections.len()).sections;
            cascaded(m, sections, first + second, n).samples == cascaded(
                m,
                sections,
                first,
                n,
            ).samples + cascaded(m, after, second, n).samples
        }),
    decreases n,
{
    let all = sections.len();
    let after = cascaded(m, sections, first, all).sections;
    if n > 0 {
        let k = (n - 1) as nat;
        lemma_cascade_in_blocks(m, sections, first, second, k);
        lemma_cascade_runs_each_section(m, sections, first, all, k as int);
        biquad::lemma_filter_in_blocks(
            sections[k as int],
            m,
            cascaded(m, sections, first, k).samples,
            cascaded(m, after, second, k).samples,
        );
    }
}

/// Equalising samples in two blocks is equalising them in one: what the bands
/// remember carries over.
pub proof fn lemma_process_in_blocks<C: Fn(Calc) -> F32>(
    eq: EqModel,
    m: Arith<C>,
    first: Seq<F32>,
    second: Seq<F32>,
)
    ensures
        eq.processed(m, first + second) == eq.processed(m, first) + eq.advanced(m, first).processed(
            m,
            second,
        ),
        eq.advanced(m, first + second) == eq.advanced(m, first).advanced(m, second),
{
    let all = eq.sections.len();
    let after = cascaded(m, eq.sections, first, all).sections;
    if all > 0 {
        lemma_cascade_runs_each_section(m, eq.sections, first, all, 0);
    }
    lemma_cascade_in_blocks(m, eq.sections, first, second, all);
    assert(eq.processed(m, first + second) =~= eq.processed(m, first) + eq.advanced(
        m,
        first,
    ).processed(m, second));
    let once = cascaded(m, eq.sections, first + second, all).sections;
    let twice = cascaded(m, after, second, all).sections;
    if all > 0 {
        lemma_cascade_runs_each_section(m, eq.sections, first + second, all, 0);
        lemma_cascade_runs_each_section(m, after, second, all, 0);
    }
    assert forall|i: int| 0 <= i < all implies #[trigger] once[i] == twice[i] by {
        lemma_cascade_runs_each_section(m, eq.sections, first + second, all, i);
        lemma_cascade_runs_each_section(m, eq.sections, first, all, i);
        lemma_cascade_runs_each_section(m, after, second, all, i);
        lemma_cascade_in_blocks(m, eq.sections, first, second, i as nat);
        biquad::lemma_filter_in_blocks(
            eq.sections[i],
            m,
            cascaded(m, eq.sections, first, i as nat).samples,
            cascaded(m, after, second, i as nat).samples,
        );
    }
    assert(once =~= twice);
}

/// A flattened equaliser has no gain left in any band, and its bands are otherwise
/// set as they were.
pub proof fn lemma_flattened_has_no_gain<C: Fn(Calc) -> F32>(
    eq: EqModel,
    m: Arith<C>,
    n: nat,
    i: int,
)
    requires
        n <= eq.bands.len(),
        0 <= i < eq.bands.len(),
    ensures
        ({
            let flat = eq.flattened(m, n);
            &&& flat.bands.len() == eq.bands.len()
            &&& i < n ==> flat.bands[i].gain_db.same(num(ZERO))
            &&& flat.bands[i] == FilterBand { gain_db: flat.bands[i].gain_db, ..eq.bands[i] }
            &&& i >= n ==> flat.bands[i] == eq.bands[i]
        }),
    decreases n,
{
    if n > 0 {
        lemma_flattened_has_no_gain(eq, m, (n - 1) as nat, i);
    }
}

/// Moving a fader reshapes one section and lets every other one be; what the section
/// remembers stays.
pub proof fn lemma_fader_moves_one_section<C: Fn(Calc) -> F32>(
    eq: EqModel,
    m: Arith<C>,
    index: int,
    gain_db: F32,
    i: int,
)
    requires
        eq.sections.len() == eq.bands.len(),
        0 <= i < eq.bands.len(),
        0 <= index,
    ensures
        ({
            let moved = eq.with_gain(m, index, gain_db);
            &&& moved.sections[i].s1 == eq.sections[i].s1
            &&& moved.sections[i].s2 == eq.sections[i].s2
            &&& i != index ==> moved.sections[i] == eq.sections[i] && moved.bands[i] == eq.bands[i]
        }),
{
}

/// Running samples through sections leaves their shapes as they are.
pub proof fn lemma_cascading_keeps_shapes<C: Fn(Calc) -> F32>(
    m: Arith<C>,
    sections: Seq<Biquad>,
    samples: Seq<F32>,
    n: nat,
)
    requires
        n <= sections.len(),
    ensures
        cascaded(m, sections, samples, n).sections.len() == sections.len(),
        forall|i: int|
            0 <= i < sections.len() ==> (#[trigger] cascaded(
                m,
                sections,
                samples,
                n,
            ).sections[i]).same_shape(sections[i]),
    decreases n,
{
    if n > 0 {
        lemma_cascading_keeps_shapes(m, sections, samples, (n - 1) as nat);
        let before = cascaded(m, sections, samples, (n - 1) as nat);
        biquad::lemma_filter_keeps_shape(sections[n - 1], m, before.samples);
        let here = cascaded(m, sections, samples, n).sections;
        assert forall|i: int| 0 <= i < sections.len() implies (#[trigger] here[i]).same_shape(
            sections[i],
        ) by {
            if i != n - 1 {
                assert(here[i] == before.sections[i]);
            }
        }
    }
}

/// An equaliser stays shaped as its bands say while its bands, its rate and the shapes
/// of its sections stay: whatever becomes of its preamp, and of what sections remember.
pub proof fn lemma_shapes_keep_the_design<C: Fn(Calc) -> F32>(
    m: Arith<C>,
    before: EqModel,
    after: EqModel,
)
    requires
        after.bands == before.bands,
        after.sample_rate == before.sample_rate,
        after.sections.len() == before.sections.len(),
        forall|i: int|
            0 <= i < before.sections.len() ==> (#[trigger] after.sections[i]).same_shape(
                before.sections[i],
            ),
    ensures
        before.designed(&m) ==> after.designed(&m),
{
    if before.designed(&m) {
        assert forall|i: int| 0 <= i < after.bands.len() implies (
        #[trigger] after.sections[i]).same_shape(after.bands[i].design(&m, after.sample_rate)) by {
            assert(before.sections[i].same_shape(before.bands[i].design(&m, before.sample_rate)));
        }
    }
}

/// Setting the preamp leaves every section shaped as its band says.
pub proof fn lemma_preamp_keeps_the_design<C: Fn(Calc) -> F32>(
    m: Arith<C>,
    eq: EqModel,
    preamp_db: F32,
)
    requires
        eq.designed(&m),
    ensures
        (EqModel { preamp_db, ..eq }).designed(&m),
{
}

/// Clearing what sections remember leaves every one shaped as its band says.
pub proof fn lemma_reset_keeps_the_design<C: Fn(Calc) -> F32>(m: Arith<C>, eq: EqModel)
    requires
        eq.designed(&m),
    ensures
        (EqModel {
            sections: Seq::new(
                eq.sections.len(),
                |i: int| Biquad { s1: num(ZERO), s2: num(ZERO), ..eq.sections[i] },
            ),
            ..eq
        }).designed(&m),
{
    lemma_shapes_keep_the_design(
        m,
        eq,
        EqModel {
            sections: Seq::new(
                eq.sections.len(),
                |i: int| Biquad { s1: num(ZERO), s2: num(ZERO), ..eq.sections[i] },
            ),
            ..eq
        },
    );
}

/// No sampled frequency of the audio band is louder than the loudest, and the loudest
/// is the gain at one of them, unless there is none that has a gain.
pub proof fn lemma_loudest_is_reached<C: Fn(Calc) -> F32>(
    eq: EqModel,
    m: Arith<C>,
    probes: Seq<F32>,
)
    ensures
        !eq.loudest(m, probes).nan(),
        forall|i: int|
            0 <= i < probes.len() && eq.audible(m, #[trigger] probes[i]) && !eq.magnitude_db(
                m,
                probes[i],
            ).nan() ==> eq.magnitude_db(m, probes[i]).at_most(eq.loudest(m, probes)),
        eq.loudest(m, probes) == num(MINUS_INFINITY) || exists|i: int|
            0 <= i < probes.len() && eq.audible(m, #[trigger] probes[i]) && eq.loudest(m, probes)
                == eq.magnitude_db(m, probes[i]),
    decreases probes.len(),
{
    if probes.len() > 0 {
        let rest = probes.drop_last();
        let end = probes.len() - 1;
        lemma_loudest_is_reached(eq, m, rest);
        let peak = eq.loudest(m, probes);
        let before = eq.loudest(m, rest);
        assert forall|i: int|
            0 <= i < probes.len() && eq.audible(m, #[trigger] probes[i]) && !eq.magnitude_db(
                m,
                probes[i],
            ).nan() implies eq.magnitude_db(m, probes[i]).at_most(peak) by {
            if i < end {
                assert(rest[i] == probes[i]);
            }
        }
        if peak != num(MINUS_INFINITY) {
            if peak == before {
                let i = choose|i: int|
                    0 <= i < rest.len() && eq.audible(m, #[trigger] rest[i]) && before
                        == eq.magnitude_db(m, rest[i]);
                assert(probes[i] == rest[i]);
            } else {
                assert(eq.audible(m, probes[end]));
            }
        }
    }
}

proof fn lemma_band_is_probed<C: Fn(Calc) -> F32>(eq: EqModel, m: Arith<C>, index: int, n: nat)
    requires
        0 <= index < n <= eq.bands.len(),
        !eq.bands[index].is_transparent(),
    ensures
        eq.probes_upto(m, n).contains(eq.bands[index].hz),
    decreases n,
{
    let before = eq.probes_upto(m, (n - 1) as nat);
    let here = band_probes(m, eq.bands[n - 1], eq.sample_rate);
    if index == n - 1 {
        assert(around(m, eq.bands[index].hz).last() == eq.bands[index].hz);
        assert(here.last() == eq.bands[index].hz);
        assert((before + here).last() == here.last());
    } else {
        lemma_band_is_probed(eq, m, index, (n - 1) as nat);
        let at = choose|at: int| 0 <= at < before.len() && before[at] == eq.bands[index].hz;
        assert((before + here)[at] == before[at]);
    }
}

/// The peak gain is never less than the gain at a band's own frequency, however narrow
/// the band is.
pub proof fn lemma_peak_covers_every_band<C: Fn(Calc) -> F32>(eq: EqModel, m: Arith<C>, index: int)
    requires
        0 <= index < eq.bands.len(),
        !eq.bands[index].is_transparent(),
        eq.audible(m, eq.bands[index].hz),
        !eq.top_hz(m).le(num(TEN)),
        !eq.magnitude_db(m, eq.bands[index].hz).nan(),
    ensures
        eq.magnitude_db(m, eq.bands[index].hz).at_most(eq.peak_gain(m)),
{
    let probes = eq.probes(m);
    lemma_band_is_probed(eq, m, index, eq.bands.len());
    lemma_loudest_is_reached(eq, m, probes);
    let at = choose|at: int| 0 <= at < probes.len() && probes[at] == eq.bands[index].hz;
    assert(eq.audible(m, probes[at]));
}

/// Whether the gain at `hz` is at most `margin` above that of sampled frequency `at`.
pub open spec fn near<C: Fn(Calc) -> F32>(
    eq: EqModel,
    m: Arith<C>,
    margin: F32,
    hz: F32,
    at: int,
) -> bool {
    &&& 0 <= at < eq.probes(m).len()
    &&& eq.audible(m, eq.probes(m)[at])
    &&& !eq.magnitude_db(m, eq.probes(m)[at]).nan()
    &&& eq.magnitude_db(m, hz).at_most(m.plus(eq.magnitude_db(m, eq.probes(m)[at]), margin))
}

/// The peak gain bounds the gain everywhere in the audio band, and is reached there:
/// wherever the gain between two sampled frequencies is at most `margin` above that of
/// one of them, no gain is more than `margin` above the peak.
pub proof fn lemma_peak_bounds_the_response<C: Fn(Calc) -> F32>(
    eq: EqModel,
    m: Arith<C>,
    margin: F32,
)
    requires
        !eq.top_hz(m).le(num(TEN)),
        forall|hz: F32| #[trigger]
            eq.audible(m, hz) ==> exists|at: int| near(eq, m, margin, hz, at),
        forall|a: F32, b: F32|
            a.at_most(b) ==> (#[trigger] m.plus(a, margin)).at_most(#[trigger] m.plus(b, margin)),
    ensures
        forall|hz: F32| #[trigger]
            eq.audible(m, hz) ==> eq.magnitude_db(m, hz).at_most(
                m.plus(eq.peak_gain(m), margin),
            ),
        eq.peak_gain(m) == num(MINUS_INFINITY) || exists|hz: F32| #[trigger]
            eq.audible(m, hz) && eq.magnitude_db(m, hz) == eq.peak_gain(m),
{
    let probes = eq.probes(m);
    lemma_loudest_is_reached(eq, m, probes);
    assert forall|hz: F32| #[trigger] eq.audible(m, hz) implies eq.magnitude_db(m, hz).at_most(
        m.plus(eq.peak_gain(m), margin),
    ) by {
        let at = choose|at: int| near(eq, m, margin, hz, at);
        let below = eq.magnitude_db(m, probes[at]);
        assert(eq.audible(m, probes[at]));
        assert(below.at_most(eq.peak_gain(m)));
        assert(m.plus(below, margin).at_most(m.plus(eq.peak_gain(m), margin)));
    }
    if eq.peak_gain(m) != num(MINUS_INFINITY) {
        let at = choose|at: int|
            0 <= at < probes.len() && eq.audible(m, #[trigger] probes[at]) && eq.loudest(m, probes)
                == eq.magnitude_db(m, probes[at]);
        assert(eq.audible(m, probes[at]));
    }
}

/// A band is designed as the shape that it names. It passes everything where it is
/// switched off, and where a shape that has a gain has none.
pub proof fn lemma_design_of_a_band<C: Fn(Calc) -> F32>(
    m: Arith<C>,
    band: FilterBand,
    sample_rate: F32,
)
    ensures
        ({
            let (hz, q, gain) = (band.hz, band.q, band.gain_db);
            let flat = !gain.nan() && gain.rank() == 0;
            let made = band.design(&m, sample_rate);
            &&& !band.enabled ==> made == Biquad::identity()
            &&& band.enabled ==> match band.kind {
                FilterKind::Peaking => made == if flat {
                    Biquad::identity()
                } else {
                    Biquad::peaking(&m, hz, q, gain, sample_rate)
                },
                FilterKind::LowShelf => made == if flat {
                    Biquad::identity()
                } else {
                    Biquad::low_shelf(&m, hz, q, gain, sample_rate)
                },
                FilterKind::HighShelf => made == if flat {
                    Biquad::identity()
                } else {
                    Biquad::high_shelf(&m, hz, q, gain, sample_rate)
                },
                FilterKind::LowPass => made == Biquad::low_pass(&m, hz, q, sample_rate),
                FilterKind::HighPass => made == Biquad::high_pass(&m, hz, q, sample_rate),
                FilterKind::BandPass => made == Biquad::band_pass(&m, hz, q, sample_rate),
                FilterKind::Notch => made == Biquad::notch(&m, hz, q, sample_rate),
                FilterKind::AllPass => made == Biquad::all_pass(&m, hz, q, sample_rate),
            }
        }),
{
}

/// One more band multiplies the response by its own, at every frequency, and runs what
/// comes out of the others through its section.
pub proof fn lemma_one_more_band<C: Fn(Calc) -> F32>(
    m: Arith<C>,
    eq: EqModel,
    band: FilterBand,
    hz: F32,
    samples: Seq<F32>,
)
    requires
        eq.sections.len() == eq.bands.len(),
    ensures
        ({
            let section = band.design(&m, eq.sample_rate);
            let more = EqModel {
                bands: eq.bands.push(band),
                sections: eq.sections.push(section),
                ..eq
            };
            let before = cascaded(m, eq.sections, samples, eq.sections.len()).samples;
            &&& more.response(m, hz) == m.product(
                eq.response(m, hz),
                section.spec_response_at(m, hz, eq.sample_rate),
            )
            &&& cascaded(m, more.sections, samples, more.sections.len()).samples
                == section.filtered(m, before).samples
        }),
{
    let section = band.design(&m, eq.sample_rate);
    let more = EqModel {
        bands: eq.bands.push(band),
        sections: eq.sections.push(section),
        ..eq
    };
    let n = eq.sections.len();
    lemma_response_of_the_first(m, eq, more, hz, n);
    lemma_cascade_of_the_first(m, eq.sections, more.sections, samples, n);
    assert(more.sections.len() == n + 1);
    assert(more.sections[n as int] == section);
}

proof fn lemma_response_of_the_first<C: Fn(Calc) -> F32>(
    m: Arith<C>,
    eq: EqModel,
    more: EqModel,
    hz: F32,
    n: nat,
)
    requires
        n <= eq.sections.len() <= more.sections.len(),
        more.sample_rate == eq.sample_rate,
        more.preamp_db == eq.preamp_db,
        forall|i: int|
            0 <= i < eq.sections.len() ==> #[trigger] more.sections[i] == eq.sections[i],
    ensures
        more.response_upto(m, hz, n) == eq.response_upto(m, hz, n),
    decreases n,
{
    if n > 0 {
        lemma_response_of_the_first(m, eq, more, hz, (n - 1) as nat);
        assert(more.sections[n - 1] == eq.sections[n - 1]);
    }
}

proof fn lemma_cascade_of_the_first<C: Fn(Calc) -> F32>(
    m: Arith<C>,
    sections: Seq<Biquad>,
    more: Seq<Biquad>,
    samples: Seq<F32>,
    n: nat,
)
    requires
        n <= sections.len() <= more.len(),
        forall|i: int| 0 <= i < sections.len() ==> #[trigger] more[i] == sections[i],
    ensures
        cascaded(m, more, samples, n).samples == cascaded(m, sections, samples, n).samples,
    decreases n,
{
    if n > 0 {
        lemma_cascade_of_the_first(m, sections, more, samples, (n - 1) as nat);
        assert(more[n - 1] == sections[n - 1]);
    }
}

/// The preamp is a plain gain: the response without bands is its linear ratio, and every
/// sample is multiplied by it, unless it is one.
pub proof fn lemma_preamp_is_a_gain<C: Fn(Calc) -> F32>(
    m: Arith<C>,
    eq: EqModel,
    hz: F32,
    samples: Seq<F32>,
    i: int,
)
    requires
        eq.sections.len() == 0,
        0 <= i < samples.len(),
    ensures
        ({
            let ratio = m.power(num(TEN), m.over(eq.preamp_db, num(TWENTY)));
            &&& eq.response(m, hz) == (Complex { re: ratio, im: num(ZERO) })
            &&& eq.processed(m, samples).len() == samples.len()
            &&& ratio.rank() != num(ONE).rank() ==> eq.processed(m, samples)[i] == m.times(
                samples[i],
                ratio,
            )
            &&& !ratio.nan() && ratio.rank() == num(ONE).rank() ==> eq.processed(m, samples)[i]
                == samples[i]
        }),
{
}

/// A level in decibels is twenty times the logarithm of the magnitude of the response.
pub proof fn lemma_level_of_the_response<C: Fn(Calc) -> F32>(m: Arith<C>, eq: EqModel, hz: F32)
    requires
        num(LEAST_RATIO).at_most(m.norm(eq.response(m, hz))),
    ensures
        eq.magnitude_db(m, hz) == m.times(num(TWENTY), m.log10(m.norm(eq.response(m, hz)))),
{
}

/// Another sample rate leaves every band as it is set, gives every section the shape that
/// its band has at that rate, and lets it keep what it remembers.
pub proof fn lemma_redesigned_sections<C: Fn(Calc) -> F32>(m: Arith<C>, eq: EqModel, i: int)
    requires
        0 <= i < eq.bands.len(),
        eq.sections.len() == eq.bands.len(),
    ensures
        ({
            let after = eq.redesigned(m);
            let shape = eq.bands[i].design(&m, eq.sample_rate);
            let section = after.sections[i];
            &&& after.bands == eq.bands
            &&& after.preamp_db == eq.preamp_db
            &&& after.sample_rate == eq.sample_rate
            &&& section.b0 == shape.b0 && section.b1 == shape.b1 && section.b2 == shape.b2
            &&& section.a1 == shape.a1 && section.a2 == shape.a2
            &&& section.s1 == eq.sections[i].s1 && section.s2 == eq.sections[i].s2
        }),
{
}

/// A band that is set changes that band and the shape of its section, which keeps what it
/// remembers, and nothing else.
pub proof fn lemma_setting_one_band<C: Fn(Calc) -> F32>(
    m: Arith<C>,
    eq: EqModel,
    index: int,
    band: FilterBand,
    i: int,
)
    requires
        0 <= index < eq.bands.len(),
        eq.sections.len() == eq.bands.len(),
        0 <= i < eq.bands.len(),
        !eq.bands[index].same(band),
    ensures
        ({
            let after = eq.with_band(m, index, band);
            let shape = band.design(&m, eq.sample_rate);
            let section = after.sections[index];
            &&& after.bands[index] == band
            &&& section.b0 == shape.b0 && section.b1 == shape.b1 && section.b2 == shape.b2
            &&& section.a1 == shape.a1 && section.a2 == shape.a2
            &&& section.s1 == eq.sections[index].s1 && section.s2 == eq.sections[index].s2
            &&& i != index ==> after.bands[i] == eq.bands[i] && after.sections[i] == eq.sections[i]
            &&& after.sample_rate == eq.sample_rate
            &&& after.preamp_db == eq.preamp_db
        }),
{
}

} // verus!

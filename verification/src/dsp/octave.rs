//! Fractional-octave band analysis, following IEC 61260.
//!
//! Octave bands sum bin power into logarithmically spaced buckets. The octave ratio
//! is the tenth power of ten to the three, not exactly two: over the audio band the
//! two conventions drift far enough apart that centres stop matching published
//! tables. A band narrower than the bin spacing holds no bin, and
//! [`OctaveBands::is_resolvable`] says so.

use vstd::prelude::*;

use crate::arith;
use crate::arith::{sum_of, Arith, Calc};
use crate::choice;
use crate::ieee;
use crate::ieee::F32;
use crate::numbers::{num, ONE, TEN, TWENTY, TWO, ZERO};
use crate::order;
use crate::order::arrange;

verus! {

/// The octave ratio, ten to the power of three tenths.
pub const OCTAVE_RATIO: u32 = 0x3FFF_64C1;

/// Floor for a band with no energy.
pub const BAND_FLOOR_DB: u32 = 0xC348_0000;

/// The frequency that bands are counted from, one kilohertz.
pub const REFERENCE_HZ: u32 = 0x447A_0000;

/// One percent of slack at either end, because nominal and exact centres differ.
pub const SLACK_BELOW: u32 = 0x3F7D_70A4;

pub const SLACK_ABOVE: u32 = 0x3F81_47AE;

/// More than any number.
pub const INFINITY: u32 = 0x7F80_0000;

/// Twenty kilohertz.
pub const TWENTY_KILOHERTZ: u32 = 0x469C_4000;

/// The preferred numbers of a decade, and the one that begins the next: from 1 to 10.
pub const PREFERRED: [u32; 11] = [
    0x3F80_0000,
    0x3FA0_0000,
    0x3FCC_CCCD,
    0x4000_0000,
    0x4020_0000,
    0x4049_999A,
    0x4080_0000,
    0x40A0_0000,
    0x40C9_999A,
    0x4100_0000,
    0x4120_0000,
];

/// One frequency band.
#[derive(Debug, Clone, Copy, PartialEq, Eq, Structural)]
pub struct Band {
    /// Exact centre frequency.
    pub centre_hz: F32,
    /// Lower band edge.
    pub lower_hz: F32,
    /// Upper band edge.
    pub upper_hz: F32,
}

/// How far a preferred number is from a mantissa.
#[verifier::allow_in_spec]
pub fn distance<C: Fn(Calc) -> F32>(m: &Arith<C>, preferred: u32, mantissa: F32) -> F32
    returns
        m.minus(num(preferred), mantissa).abs(),
{
    m.minus(num(preferred), mantissa).abs()
}

/// Whether a preferred number is the closest to a mantissa, and the first of those
/// equally close.
pub open spec fn is_closest<C: Fn(Calc) -> F32>(m: Arith<C>, mantissa: F32, at: int) -> bool {
    &&& 0 <= at < 11
    &&& forall|i: int|
        0 <= i < 11 ==> distance(&m, PREFERRED[at], mantissa).total_rank() <= (#[trigger] distance(
            &m,
            PREFERRED[i],
            mantissa,
        )).total_rank()
    &&& forall|i: int|
        0 <= i < at ==> distance(&m, PREFERRED[at], mantissa).total_rank() < (#[trigger] distance(
            &m,
            PREFERRED[i],
            mantissa,
        )).total_rank()
}

impl Band {
    /// Width in hertz.
    #[verifier::allow_in_spec]
    pub fn width_hz<C: Fn(Calc) -> F32>(&self, m: &Arith<C>) -> F32
        returns
            m.minus(self.upper_hz, self.lower_hz),
    {
        m.minus(self.upper_hz, self.lower_hz)
    }

    /// The power of ten below the centre.
    pub open spec fn scale<C: Fn(Calc) -> F32>(self, m: Arith<C>) -> F32 {
        m.power(num(TEN), m.floor(m.log10(self.centre_hz)))
    }

    /// The nominal frequency this band is known by: the nearest one of the preferred
    /// series, which may begin the next decade, so labels match what is printed on every other analyser.
    pub fn nominal_hz<C: Fn(Calc) -> F32>(&self, m: &Arith<C>) -> (hz: F32)
        ensures
            self.centre_hz.le(num(ZERO)) ==> hz == self.centre_hz,
            !self.centre_hz.le(num(ZERO)) ==> exists|at: int| #[trigger]
                is_closest(*m, m.over(self.centre_hz, self.scale(*m)), at) && hz == m.times(
                    num(PREFERRED[at]),
                    self.scale(*m),
                ),
    {
        if self.centre_hz.le(num(ZERO)) {
            return self.centre_hz;
        }
        let scale = m.power(num(TEN), m.floor(m.log10(self.centre_hz)));
        let mantissa = m.over(self.centre_hz, scale);
        let mut at: usize = 0;
        let mut least: i64 = distance(m, PREFERRED[0], mantissa).total_key();
        let mut i: usize = 1;
        while i < 11
            invariant
                at < i <= 11,
                least == distance(m, PREFERRED[at as int], mantissa).total_rank(),
                forall|k: int|
                    0 <= k < i ==> least <= (#[trigger] distance(
                        m,
                        PREFERRED[k],
                        mantissa,
                    )).total_rank(),
                forall|k: int|
                    0 <= k < at ==> least < (#[trigger] distance(
                        m,
                        PREFERRED[k],
                        mantissa,
                    )).total_rank(),
            decreases 11 - i,
        {
            let key: i64 = distance(m, PREFERRED[i], mantissa).total_key();
            if key < least {
                least = key;
                at = i;
            }
            i = i + 1;
        }
        assert(scale == self.scale(*m));
        assert(is_closest(*m, m.over(self.centre_hz, self.scale(*m)), at as int));
        m.times(num(PREFERRED[at]), scale)
    }
}

/// The centre of band `index`. Odd fractions centre a band on the reference; even
/// fractions straddle it.
#[verifier::allow_in_spec]
pub fn centre_of<C: Fn(Calc) -> F32>(m: &Arith<C>, fraction: u32, index: i32) -> F32
    returns
        m.times(
            num(REFERENCE_HZ),
            m.power(
                num(OCTAVE_RATIO),
                if fraction % 2 == 0 {
                    m.over(
                        m.plus(m.times(num(TWO), m.whole(index)), num(ONE)),
                        m.times(num(TWO), m.count(fraction as usize)),
                    )
                } else {
                    m.over(m.whole(index), m.count(fraction as usize))
                },
            ),
        ),
{
    let n = m.count(fraction as usize);
    let exponent = if fraction % 2 == 0 {
        m.over(m.plus(m.times(num(TWO), m.whole(index)), num(ONE)), m.times(num(TWO), n))
    } else {
        m.over(m.whole(index), n)
    };
    m.times(num(REFERENCE_HZ), m.power(num(OCTAVE_RATIO), exponent))
}

/// Whether a centre lies below the range asked for, or is no frequency at all.
#[verifier::allow_in_spec]
pub fn below_range<C: Fn(Calc) -> F32>(m: &Arith<C>, centre: F32, min_hz: F32) -> bool
    returns
        !num(ZERO).lt(centre) || centre.lt(m.times(min_hz, num(SLACK_BELOW))),
{
    !num(ZERO).lt(centre) || centre.lt(m.times(min_hz, num(SLACK_BELOW)))
}

/// Whether a centre lies above the range asked for, or above all frequencies.
#[verifier::allow_in_spec]
pub fn above_range<C: Fn(Calc) -> F32>(m: &Arith<C>, centre: F32, max_hz: F32) -> bool
    returns
        !centre.lt(num(INFINITY)) || m.times(max_hz, num(SLACK_ABOVE)).lt(centre),
{
    !centre.lt(num(INFINITY)) || m.times(max_hz, num(SLACK_ABOVE)).lt(centre)
}

/// Whether a centre lies in the range asked for.
#[verifier::allow_in_spec]
pub fn in_range<C: Fn(Calc) -> F32>(m: &Arith<C>, centre: F32, min_hz: F32, max_hz: F32) -> bool
    returns
        !below_range(m, centre, min_hz) && !above_range(m, centre, max_hz),
{
    !below_range(m, centre, min_hz) && !above_range(m, centre, max_hz)
}

/// The band around a centre.
#[verifier::allow_in_spec]
pub fn band_around<C: Fn(Calc) -> F32>(m: &Arith<C>, fraction: u32, centre: F32) -> Band
    returns
        ({
            let half_width = m.power(
                num(OCTAVE_RATIO),
                m.over(num(ONE), m.times(num(TWO), m.count(fraction as usize))),
            );
            Band {
                centre_hz: centre,
                lower_hz: m.over(centre, half_width),
                upper_hz: m.times(centre, half_width),
            }
        }),
{
    let half_width = m.power(
        num(OCTAVE_RATIO),
        m.over(num(ONE), m.times(num(TWO), m.count(fraction as usize))),
    );
    Band {
        centre_hz: centre,
        lower_hz: m.over(centre, half_width),
        upper_hz: m.times(centre, half_width),
    }
}

/// Whether `first` and `last` are the indices nearest to the reference, on either side
/// of it, whose centres lie beyond the range.
pub open spec fn spans<C: Fn(Calc) -> F32>(
    m: Arith<C>,
    fraction: u32,
    min_hz: F32,
    max_hz: F32,
    first: i32,
    last: i32,
) -> bool {
    &&& first <= 0 <= last
    &&& first == i32::MIN || below_range(&m, centre_of(&m, fraction, first), min_hz)
    &&& forall|i: i32|
        first < i <= 0 ==> !below_range(&m, #[trigger] centre_of(&m, fraction, i), min_hz)
    &&& last == i32::MAX || above_range(&m, centre_of(&m, fraction, last), max_hz)
    &&& forall|i: i32|
        0 <= i < last ==> !above_range(&m, #[trigger] centre_of(&m, fraction, i), max_hz)
}

/// The bands in range among the `n` indices that follow `first`, from the lowest up.
pub open spec fn candidates<C: Fn(Calc) -> F32>(
    m: Arith<C>,
    fraction: u32,
    min_hz: F32,
    max_hz: F32,
    first: i32,
    n: nat,
) -> Seq<Band>
    decreases n,
{
    if n == 0 {
        Seq::empty()
    } else {
        let before = candidates(m, fraction, min_hz, max_hz, first, (n - 1) as nat);
        let centre = centre_of(&m, fraction, (first + n) as i32);
        if in_range(&m, centre, min_hz, max_hz) {
            before.push(band_around(&m, fraction, centre))
        } else {
            before
        }
    }
}

/// All bands in range between two indices that lie beyond it.
pub open spec fn bands_between<C: Fn(Calc) -> F32>(
    m: Arith<C>,
    fraction: u32,
    min_hz: F32,
    max_hz: F32,
    first: i32,
    last: i32,
) -> Seq<Band> {
    candidates(
        m,
        fraction,
        min_hz,
        max_hz,
        first,
        if first < last {
            (last - first - 1) as nat
        } else {
            0
        },
    )
}

/// The bands without those that repeat the centre before them.
pub open spec fn once_each(sorted: Seq<Band>) -> Seq<Band>
    decreases sorted.len(),
{
    if sorted.len() == 0 {
        Seq::empty()
    } else {
        let before = once_each(sorted.drop_last());
        if before.len() > 0 && before.last().centre_hz == sorted.last().centre_hz {
            before
        } else {
            before.push(sorted.last())
        }
    }
}

/// Whether `bands` are all the bands in range, in ascending order, each once. The
/// indices that are looked at follow from the range.
pub open spec fn covering<C: Fn(Calc) -> F32>(
    m: Arith<C>,
    fraction: u32,
    min_hz: F32,
    max_hz: F32,
    bands: Seq<Band>,
) -> bool {
    exists|first: i32, last: i32, sorted: Seq<Band>| #[trigger]
        spans(m, fraction, min_hz, max_hz, first, last) && #[trigger] in_order(
            bands_between(m, fraction, min_hz, max_hz, first, last),
            sorted,
        ) && bands == once_each(sorted)
}

/// The places of the centres in the total order.
pub open spec fn centre_keys(bands: Seq<Band>) -> Seq<i64> {
    Seq::new(bands.len(), |i: int| bands[i].centre_hz.total_rank() as i64)
}

/// Whether `sorted` holds all of `bands`, in stable ascending order of their centres.
pub open spec fn in_order(bands: Seq<Band>, sorted: Seq<Band>) -> bool {
    order::arranged(bands, centre_keys(bands), sorted)
}

/// The level that a spectrum gives a band.
pub open spec fn band_level<C: Fn(Calc) -> F32>(
    m: Arith<C>,
    band: Band,
    bins_db: Seq<F32>,
    spacing: F32,
) -> F32 {
    let first = lowest_bin(m, band, spacing);
    let last = highest_bin(m, band, spacing, bins_db.len() as int);
    let nearest = nearest_bin(m, band, spacing, bins_db.len() as int);
    if first <= last {
        let power = arith::total(m, bin_powers(m, bins_db.subrange(first, last + 1)));
        if num(ZERO).lt(power) {
            m.times(num(TEN), m.log10(power))
        } else {
            num(BAND_FLOOR_DB)
        }
    } else if bins_db.len() > 1 {
        bins_db[nearest]
    } else {
        num(BAND_FLOOR_DB)
    }
}

/// The lowest bin in a band. DC belongs to no band.
pub open spec fn lowest_bin<C: Fn(Calc) -> F32>(m: Arith<C>, band: Band, spacing: F32) -> int {
    let bin = ieee::saturated(m.over(band.lower_hz, spacing).ceil_int(), usize::MAX as int);
    if bin < 1 {
        1
    } else {
        bin
    }
}

/// The highest bin in a band.
pub open spec fn highest_bin<C: Fn(Calc) -> F32>(
    m: Arith<C>,
    band: Band,
    spacing: F32,
    bins: int,
) -> int {
    let bin = ieee::saturated(m.over(band.upper_hz, spacing).floor_int(), usize::MAX as int);
    if bin < bins {
        bin
    } else {
        bins - 1
    }
}

/// The bin nearest to the centre of a band, of those that are not DC.
pub open spec fn nearest_bin<C: Fn(Calc) -> F32>(
    m: Arith<C>,
    band: Band,
    spacing: F32,
    bins: int,
) -> int {
    let bin = ieee::saturated(m.over(band.centre_hz, spacing).round_int(), usize::MAX as int);
    if bin < 1 {
        1
    } else if bin < bins {
        bin
    } else {
        bins - 1
    }
}

/// Levels as powers.
pub open spec fn bin_powers<C: Fn(Calc) -> F32>(m: Arith<C>, levels: Seq<F32>) -> Seq<F32> {
    Seq::new(levels.len(), |i: int| m.power(num(TEN), m.over(levels[i], num(TEN))))
}

fn bin_powers_of<C: Fn(Calc) -> F32>(m: &Arith<C>, levels: &[F32]) -> (powers: Vec<F32>)
    ensures
        powers@ == bin_powers(*m, levels@),
{
    let mut powers: Vec<F32> = Vec::new();
    let mut i: usize = 0;
    while i < levels.len()
        invariant
            i <= levels@.len(),
            powers@.len() == i,
            forall|k: int|
                0 <= k < i ==> #[trigger] powers@[k] == m.power(
                    num(TEN),
                    m.over(levels@[k], num(TEN)),
                ),
        decreases levels@.len() - i,
    {
        powers.push(m.power(num(TEN), m.over(levels[i], num(TEN))));
        i = i + 1;
    }
    assert(powers@ =~= bin_powers(*m, levels@));
    powers
}

fn keep_once(sorted: &[Band]) -> (bands: Vec<Band>)
    ensures
        bands@ == once_each(sorted@),
{
    let mut bands: Vec<Band> = Vec::new();
    let mut i: usize = 0;
    assert(sorted@.take(0) =~= Seq::<Band>::empty());
    while i < sorted.len()
        invariant
            i <= sorted@.len(),
            bands@ == once_each(sorted@.take(i as int)),
        decreases sorted@.len() - i,
    {
        let count: usize = bands.len();
        if count == 0 || bands[count - 1].centre_hz != sorted[i].centre_hz {
            bands.push(sorted[i]);
        }
        i = i + 1;
        assert(sorted@.take(i as int).drop_last() =~= sorted@.take(i - 1));
    }
    assert(sorted@.take(i as int) =~= sorted@);
    bands
}

/// A set of fractional-octave bands.
#[derive(Debug, Clone, PartialEq)]
pub struct OctaveBands {
    fraction: u32,
    bands: Vec<Band>,
}

impl OctaveBands {
    /// The bands, ascending.
    pub closed spec fn spec_bands(self) -> Seq<Band> {
        self.bands@
    }

    pub closed spec fn spec_fraction(self) -> u32 {
        self.fraction
    }

    /// Build bands of one `fraction`th of an octave covering `min_hz` to `max_hz`.
    pub fn new<C: Fn(Calc) -> F32>(m: &Arith<C>, fraction: u32, min_hz: F32, max_hz: F32) -> (octaves:
        OctaveBands)
        requires
            fraction > 0,
            num(ZERO).less(min_hz),
            min_hz.less(max_hz),
        ensures
            octaves.spec_fraction() == fraction,
            covering(*m, fraction, min_hz, max_hz, octaves.spec_bands()),
    {
        let mut first: i32 = 0;
        while first > i32::MIN && !below_range(m, centre_of(m, fraction, first), min_hz)
            invariant
                first <= 0,
                forall|i: i32|
                    first < i <= 0 ==> !below_range(
                        m,
                        #[trigger] centre_of(m, fraction, i),
                        min_hz,
                    ),
            decreases first - i32::MIN,
        {
            first = first - 1;
        }
        let mut found: Vec<Band> = Vec::new();
        let mut keys: Vec<i64> = Vec::new();
        let mut last: i32 = 0;
        while last < i32::MAX && !above_range(m, centre_of(m, fraction, last), max_hz)
            invariant
                0 <= last,
                forall|i: i32|
                    0 <= i < last ==> !above_range(
                        m,
                        #[trigger] centre_of(m, fraction, i),
                        max_hz,
                    ),
            decreases i32::MAX - last,
        {
            last = last + 1;
        }
        assert(spans(*m, fraction, min_hz, max_hz, first, last));
        let mut index: i32 = first;
        while index < last && index + 1 < last
            invariant
                first <= index,
                index < last || index == first,
                first <= 0 <= last,
                found@ == candidates(
                    *m,
                    fraction,
                    min_hz,
                    max_hz,
                    first,
                    (index - first) as nat,
                ),
                keys@ == centre_keys(found@),
            decreases last - index,
        {
            index = index + 1;
            let centre = centre_of(m, fraction, index);
            if in_range(m, centre, min_hz, max_hz) {
                found.push(band_around(m, fraction, centre));
                keys.push(centre.total_key());
                assert(keys@ =~= centre_keys(found@));
            }
        }
        let sorted = arrange(found.as_slice(), keys.as_slice());
        let bands = keep_once(sorted.as_slice());
        proof {
            assert(found@ == bands_between(*m, fraction, min_hz, max_hz, first, last));
            assert(in_order(
                bands_between(*m, fraction, min_hz, max_hz, first, last),
                sorted@,
            ));
        }
        OctaveBands { fraction, bands }
    }

    /// Third-octave bands across the audio band, the usual default.
    pub fn third_octave<C: Fn(Calc) -> F32>(m: &Arith<C>) -> (octaves: OctaveBands)
        ensures
            octaves.spec_fraction() == 3,
            covering(*m, 3, num(TWENTY), num(TWENTY_KILOHERTZ), octaves.spec_bands()),
    {
        Self::new(m, 3, num(TWENTY), num(TWENTY_KILOHERTZ))
    }

    /// The bands, ascending.
    pub fn bands(&self) -> (bands: &[Band])
        ensures
            bands@ == self.spec_bands(),
    {
        self.bands.as_slice()
    }

    /// How many bands there are.
    pub fn len(&self) -> (len: usize)
        ensures
            len == self.spec_bands().len(),
    {
        self.bands.len()
    }

    /// Whether there are no bands.
    pub fn is_empty(&self) -> (empty: bool)
        ensures
            empty == (self.spec_bands().len() == 0),
    {
        self.bands.len() == 0
    }

    /// The fraction these bands divide an octave into.
    pub fn fraction(&self) -> (fraction: u32)
        ensures
            fraction == self.spec_fraction(),
    {
        self.fraction
    }

    /// Whether band `index` is wide enough for the analysis to resolve.
    pub open spec fn resolvable<C: Fn(Calc) -> F32>(
        self,
        m: &Arith<C>,
        index: int,
        bin_spacing_hz: F32,
    ) -> bool {
        index < self.spec_bands().len() && bin_spacing_hz.at_most(
            self.spec_bands()[index].width_hz(m),
        )
    }

    /// Whether band `index` is wide enough for the analysis to resolve.
    ///
    /// A band narrower than the bin spacing contains no bin, and a level reported for
    /// it would be borrowed from a neighbour.
    pub fn is_resolvable<C: Fn(Calc) -> F32>(
        &self,
        m: &Arith<C>,
        index: usize,
        bin_spacing_hz: F32,
    ) -> (resolvable: bool)
        ensures
            resolvable == self.resolvable(m, index as int, bin_spacing_hz),
    {
        index < self.bands.len() && bin_spacing_hz.le(self.bands[index].width_hz(m))
    }

    /// The lowest band the analysis can resolve.
    pub fn first_resolvable<C: Fn(Calc) -> F32>(&self, m: &Arith<C>, bin_spacing_hz: F32) -> (first:
        Option<usize>)
        ensures
            (match first {
                Some(index) => self.resolvable(m, index as int, bin_spacing_hz) && forall|i: int|
                    0 <= i < index ==> !(#[trigger] self.resolvable(m, i, bin_spacing_hz)),
                None => forall|i: int|
                    0 <= i < self.spec_bands().len() ==> !(#[trigger] self.resolvable(
                        m,
                        i,
                        bin_spacing_hz,
                    )),
            }),
    {
        let mut index: usize = 0;
        while index < self.bands.len()
            invariant
                index <= self.bands@.len(),
                forall|i: int|
                    0 <= i < index ==> !(#[trigger] self.resolvable(m, i, bin_spacing_hz)),
            decreases self.bands@.len() - index,
        {
            if self.is_resolvable(m, index, bin_spacing_hz) {
                return Some(index);
            }
            index = index + 1;
        }
        None
    }

    /// Sum a spectrum into bands.
    ///
    /// `bins_db` holds one level per bin, bin `k` at `k` times the spacing. Power is
    /// summed within each band and converted back to decibels; adding decibels
    /// directly would read low wherever a band is peaky. Bands too narrow to hold a
    /// bin take the nearest bin's level, where there is one besides DC.
    pub fn apply<C: Fn(Calc) -> F32>(
        &self,
        m: &Arith<C>,
        bins_db: &[F32],
        bin_spacing_hz: F32,
        out: &mut [F32],
    )
        requires
            old(out)@.len() == self.spec_bands().len(),
        ensures
            final(out)@ == Seq::new(
                self.spec_bands().len(),
                |i: int|
                    if bins_db@.len() == 0 || bin_spacing_hz.le(num(ZERO)) {
                        num(BAND_FLOOR_DB)
                    } else {
                        band_level(*m, self.spec_bands()[i], bins_db@, bin_spacing_hz)
                    },
            ),
    {
        let n: usize = self.bands.len();
        let bins: usize = bins_db.len();
        let silent = bins == 0 || bin_spacing_hz.le(num(ZERO));
        let mut i: usize = 0;
        while i < n
            invariant
                i <= n,
                n == self.bands@.len(),
                n == out@.len(),
                bins == bins_db@.len(),
                silent == (bins == 0 || bin_spacing_hz.le(num(ZERO))),
                forall|k: int|
                    0 <= k < i ==> #[trigger] out@[k] == if silent {
                        num(BAND_FLOOR_DB)
                    } else {
                        band_level(*m, self.bands@[k], bins_db@, bin_spacing_hz)
                    },
            decreases n - i,
        {
            if silent {
                out[i] = num(BAND_FLOOR_DB);
            } else {
                let band = self.bands[i];
                let mut first: usize = m.over(band.lower_hz, bin_spacing_hz).ceil_to_usize();
                if first < 1 {
                    first = 1;
                }
                let mut last: usize = m.over(band.upper_hz, bin_spacing_hz).floor_to_usize();
                if last >= bins {
                    last = bins - 1;
                }
                if first <= last {
                    let part = vstd::slice::slice_subrange(bins_db, first, last + 1);
                    let power = sum_of(m, bin_powers_of(m, part).as_slice());
                    out[i] =
                    if num(ZERO).lt(power) {
                        m.times(num(TEN), m.log10(power))
                    } else {
                        num(BAND_FLOOR_DB)
                    };
                } else if bins == 1 {
                    out[i] = num(BAND_FLOOR_DB);
                } else {
                    let mut nearest: usize = m.over(
                        band.centre_hz,
                        bin_spacing_hz,
                    ).round_to_usize();
                    if nearest < 1 {
                        nearest = 1;
                    }
                    if nearest >= bins {
                        nearest = bins - 1;
                    }
                    out[i] = bins_db[nearest];
                }
            }
            i = i + 1;
        }
        assert(out@ =~= Seq::new(
            self.spec_bands().len(),
            |i: int|
                if bins_db@.len() == 0 || bin_spacing_hz.le(num(ZERO)) {
                    num(BAND_FLOOR_DB)
                } else {
                    band_level(*m, self.spec_bands()[i], bins_db@, bin_spacing_hz)
                },
        ));
    }
}

/// Whether one of the bands has this centre.
spec fn has_centre(bands: Seq<Band>, centre: F32) -> bool {
    exists|i: int| 0 <= i < bands.len() && (#[trigger] bands[i]).centre_hz == centre
}

/// Sorted bands, kept once each, ascend strictly.
proof fn lemma_once_each_ascends(sorted: Seq<Band>)
    requires
        forall|i: int, j: int|
            0 <= i < j < sorted.len() ==> (#[trigger] sorted[i]).centre_hz.total_rank() <= (
            #[trigger] sorted[j]).centre_hz.total_rank(),
    ensures
        once_each(sorted).len() > 0 <==> sorted.len() > 0,
        sorted.len() > 0 ==> once_each(sorted).last().centre_hz == sorted.last().centre_hz,
        forall|i: int, j: int|
            0 <= i < j < once_each(sorted).len() ==> (#[trigger] once_each(
                sorted,
            )[i]).centre_hz.total_rank() < (#[trigger] once_each(
                sorted,
            )[j]).centre_hz.total_rank(),
    decreases sorted.len(),
{
    if sorted.len() > 0 {
        let before = sorted.drop_last();
        lemma_once_each_ascends(before);
        let (kept, all) = (once_each(before), once_each(sorted));
        let end = sorted.len() - 1;
        if before.len() > 0 {
            assert(before.last() == sorted[end - 1]);
            assert(sorted[end - 1].centre_hz.total_rank() <= sorted[end].centre_hz.total_rank());
        }
        assert(all == kept || all == kept.push(sorted[end]));
        assert forall|i: int, j: int| 0 <= i < j < all.len() implies (
        #[trigger] all[i]).centre_hz.total_rank() < (#[trigger] all[j]).centre_hz.total_rank() by {
            assert(all[i] == kept[i]);
            if j < kept.len() {
                assert(all[j] == kept[j]);
            } else {
                let top = kept[kept.len() - 1].centre_hz;
                assert(top.total_rank() < sorted[end].centre_hz.total_rank());
                assert(kept[i].centre_hz.total_rank() <= top.total_rank());
            }
        }
    }
}

/// What is kept was there, and every centre that was there is kept.
proof fn lemma_once_each_keeps(sorted: Seq<Band>)
    ensures
        sorted.len() > 0 ==> once_each(sorted).len() > 0 && once_each(sorted).last().centre_hz
            == sorted.last().centre_hz,
        forall|i: int|
            0 <= i < once_each(sorted).len() ==> sorted.contains(#[trigger] once_each(sorted)[i]),
        forall|k: int|
            0 <= k < sorted.len() ==> has_centre(
                once_each(sorted),
                (#[trigger] sorted[k]).centre_hz,
            ),
    decreases sorted.len(),
{
    if sorted.len() > 0 {
        let before = sorted.drop_last();
        lemma_once_each_keeps(before);
        let (kept, all) = (once_each(before), once_each(sorted));
        let end = sorted.len() - 1;
        assert(all == kept || all == kept.push(sorted[end]));
        assert forall|i: int| 0 <= i < all.len() implies sorted.contains(#[trigger] all[i]) by {
            if i < kept.len() {
                assert(all[i] == kept[i]);
                assert(before.contains(kept[i]));
                let k = choose|k: int| 0 <= k < before.len() && before[k] == kept[i];
                assert(sorted[k] == kept[i]);
            } else {
                assert(sorted[end] == all[i]);
            }
        }
        assert forall|k: int| 0 <= k < sorted.len() implies has_centre(
            all,
            (#[trigger] sorted[k]).centre_hz,
        ) by {
            if k < end {
                assert(before[k] == sorted[k]);
                assert(has_centre(kept, before[k].centre_hz));
                let i = choose|i: int|
                    0 <= i < kept.len() && (#[trigger] kept[i]).centre_hz == before[k].centre_hz;
                assert(all[i] == kept[i]);
            } else {
                assert(all[all.len() - 1].centre_hz == sorted[k].centre_hz);
            }
        }
    }
}

/// Every candidate is the band around its centre, and that centre is in range.
proof fn lemma_candidates<C: Fn(Calc) -> F32>(
    m: Arith<C>,
    fraction: u32,
    min_hz: F32,
    max_hz: F32,
    first: i32,
    n: nat,
)
    ensures
        ({
            let found = candidates(m, fraction, min_hz, max_hz, first, n);
            forall|i: int|
                0 <= i < found.len() ==> #[trigger] found[i] == band_around(
                    &m,
                    fraction,
                    found[i].centre_hz,
                ) && in_range(&m, found[i].centre_hz, min_hz, max_hz)
        }),
    decreases n,
{
    if n > 0 {
        lemma_candidates(m, fraction, min_hz, max_hz, first, (n - 1) as nat);
        let before = candidates(m, fraction, min_hz, max_hz, first, (n - 1) as nat);
        let found = candidates(m, fraction, min_hz, max_hz, first, n);
        assert forall|i: int| 0 <= i < found.len() implies #[trigger] found[i] == band_around(
            &m,
            fraction,
            found[i].centre_hz,
        ) && in_range(&m, found[i].centre_hz, min_hz, max_hz) by {
            if i < before.len() {
                assert(found[i] == before[i]);
            }
        }
    }
}

/// A centre in range is among the candidates if its index is looked at.
proof fn lemma_candidate_found<C: Fn(Calc) -> F32>(
    m: Arith<C>,
    fraction: u32,
    min_hz: F32,
    max_hz: F32,
    first: i32,
    n: nat,
    index: i32,
)
    requires
        first < index <= first + n,
        first + n <= i32::MAX,
        in_range(&m, centre_of(&m, fraction, index), min_hz, max_hz),
    ensures
        candidates(m, fraction, min_hz, max_hz, first, n).contains(
            band_around(&m, fraction, centre_of(&m, fraction, index)),
        ),
    decreases n,
{
    let band = band_around(&m, fraction, centre_of(&m, fraction, index));
    let found = candidates(m, fraction, min_hz, max_hz, first, n);
    if index == first + n {
        assert(found.last() == band);
    } else {
        lemma_candidate_found(m, fraction, min_hz, max_hz, first, (n - 1) as nat, index);
        let before = candidates(m, fraction, min_hz, max_hz, first, (n - 1) as nat);
        let i = choose|i: int| 0 <= i < before.len() && before[i] == band;
        assert(found[i] == band);
    }
}

/// The bands come in ascending order of their centres, no centre twice; each is the
/// band around its centre, and its centre is in range.
pub proof fn lemma_bands_ascend<C: Fn(Calc) -> F32>(
    m: Arith<C>,
    fraction: u32,
    min_hz: F32,
    max_hz: F32,
    bands: Seq<Band>,
)
    requires
        covering(m, fraction, min_hz, max_hz, bands),
    ensures
        forall|i: int, j: int|
            0 <= i < j < bands.len() ==> (#[trigger] bands[i]).centre_hz.total_rank() < (
            #[trigger] bands[j]).centre_hz.total_rank(),
        forall|i: int|
            0 <= i < bands.len() ==> #[trigger] bands[i] == band_around(
                &m,
                fraction,
                bands[i].centre_hz,
            ) && in_range(&m, bands[i].centre_hz, min_hz, max_hz),
{
    let (first, last, sorted) = choose|first: i32, last: i32, sorted: Seq<Band>| #[trigger]
        spans(m, fraction, min_hz, max_hz, first, last) && #[trigger] in_order(
            bands_between(m, fraction, min_hz, max_hz, first, last),
            sorted,
        ) && bands == once_each(sorted);
    let found = bands_between(m, fraction, min_hz, max_hz, first, last);
    let count = if first < last {
        (last - first - 1) as nat
    } else {
        0
    };
    lemma_candidates(m, fraction, min_hz, max_hz, first, count);
    lemma_sorted_centres(found, sorted);
    lemma_once_each_ascends(sorted);
    lemma_once_each_keeps(sorted);
    let order = order::lemma_arranged_ascends(found, centre_keys(found), sorted);
    assert forall|i: int| 0 <= i < bands.len() implies #[trigger] bands[i] == band_around(
        &m,
        fraction,
        bands[i].centre_hz,
    ) && in_range(&m, bands[i].centre_hz, min_hz, max_hz) by {
        assert(sorted.contains(bands[i]));
        let k = choose|k: int| 0 <= k < sorted.len() && sorted[k] == bands[i];
        assert(sorted[k] == found[order[k] as int]);
    }
}

proof fn lemma_sorted_centres(bands: Seq<Band>, sorted: Seq<Band>)
    requires
        in_order(bands, sorted),
    ensures
        forall|i: int, j: int|
            0 <= i < j < sorted.len() ==> (#[trigger] sorted[i]).centre_hz.total_rank() <= (
            #[trigger] sorted[j]).centre_hz.total_rank(),
{
    let order = order::lemma_arranged_ascends(bands, centre_keys(bands), sorted);
    assert forall|i: int, j: int| 0 <= i < j < sorted.len() implies (
    #[trigger] sorted[i]).centre_hz.total_rank() <= (
    #[trigger] sorted[j]).centre_hz.total_rank() by {
        assert(centre_keys(bands)[order[i] as int] <= centre_keys(bands)[order[j] as int]);
    }
}

/// The bands cover the range: in an arithmetic in which centres rise with their index
/// and leave the range on both sides, every centre in range has its band.
pub proof fn lemma_bands_cover_the_range<C: Fn(Calc) -> F32>(
    m: Arith<C>,
    fraction: u32,
    min_hz: F32,
    max_hz: F32,
    bands: Seq<Band>,
    index: i32,
)
    requires
        covering(m, fraction, min_hz, max_hz, bands),
        forall|i: i32, j: i32|
            i <= j ==> (#[trigger] centre_of(&m, fraction, i)).le(
                #[trigger] centre_of(&m, fraction, j),
            ),
        below_range(&m, centre_of(&m, fraction, i32::MIN), min_hz),
        above_range(&m, centre_of(&m, fraction, i32::MAX), max_hz),
        in_range(&m, centre_of(&m, fraction, index), min_hz, max_hz),
    ensures
        bands.contains(band_around(&m, fraction, centre_of(&m, fraction, index))),
{
    let (first, last, sorted) = choose|first: i32, last: i32, sorted: Seq<Band>| #[trigger]
        spans(m, fraction, min_hz, max_hz, first, last) && #[trigger] in_order(
            bands_between(m, fraction, min_hz, max_hz, first, last),
            sorted,
        ) && bands == once_each(sorted);
    let found = bands_between(m, fraction, min_hz, max_hz, first, last);
    let centre = centre_of(&m, fraction, index);
    let band = band_around(&m, fraction, centre);
    assert(first < index) by {
        if index <= first {
            assert(centre.le(centre_of(&m, fraction, first)));
        }
    }
    assert(index < last) by {
        if last <= index {
            assert(centre_of(&m, fraction, last).le(centre));
        }
    }
    let count = (last - first - 1) as nat;
    lemma_candidate_found(m, fraction, min_hz, max_hz, first, count, index);
    let at = choose|at: int| 0 <= at < found.len() && found[at] == band;
    let k = order::lemma_arranged_has_all(found, centre_keys(found), sorted, at);
    lemma_once_each_keeps(sorted);
    assert(has_centre(bands, sorted[k].centre_hz));
    let i = choose|i: int|
        0 <= i < bands.len() && (#[trigger] bands[i]).centre_hz == sorted[k].centre_hz;
    lemma_bands_ascend(m, fraction, min_hz, max_hz, bands);
    assert(bands[i] == band);
}

/// Whether the frequency of a bin lies between the edges of a band, both included.
pub open spec fn holds_bin<C: Fn(Calc) -> F32>(m: Arith<C>, band: Band, spacing: F32, k: int) -> bool {
    let (lower, upper) = (m.over(band.lower_hz, spacing), m.over(band.upper_hz, spacing));
    &&& lower.nan() || lower.value() <= ieee::whole_value(k)
    &&& !upper.nan() && ieee::whole_value(k) <= upper.value()
}

/// What goes into the level of a band: the power of every bin but DC that lies between
/// its edges, both included, and of no other, each once. A band that holds a single bin
/// has ten times the logarithm of that bin's power. One that holds none takes the level
/// of the bin nearest to its centre.
pub proof fn lemma_what_a_band_sums<C: Fn(Calc) -> F32>(
    m: Arith<C>,
    band: Band,
    bins_db: Seq<F32>,
    spacing: F32,
) -> (held: Seq<int>)
    requires
        bins_db.len() <= usize::MAX,
    ensures
        choice::is_choice(
            held,
            bins_db.len() as int,
            |k: int| k >= 1 && holds_bin(m, band, spacing, k),
        ),
        held.len() > 0 ==> band_level(m, band, bins_db, spacing) == {
            let power = arith::total(
                m,
                Seq::new(
                    held.len(),
                    |i: int| m.power(num(TEN), m.over(bins_db[held[i]], num(TEN))),
                ),
            );
            if num(ZERO).less(power) {
                m.times(num(TEN), m.log10(power))
            } else {
                num(BAND_FLOOR_DB)
            }
        },
        held.len() == 1 ==> {
            let power = m.plus(
                num(ZERO),
                m.power(num(TEN), m.over(bins_db[held[0]], num(TEN))),
            );
            num(ZERO).less(power) ==> band_level(m, band, bins_db, spacing) == m.times(
                num(TEN),
                m.log10(power),
            )
        },
        held.len() == 0 && bins_db.len() <= 1 ==> band_level(m, band, bins_db, spacing) == num(
            BAND_FLOOR_DB,
        ),
        held.len() == 0 && bins_db.len() > 1 ==> {
            let bin = nearest_bin(m, band, spacing, bins_db.len() as int);
            &&& 1 <= bin < bins_db.len()
            &&& band_level(m, band, bins_db, spacing) == bins_db[bin]
        },
{
    let n = bins_db.len() as int;
    let (lower, upper) = (m.over(band.lower_hz, spacing), m.over(band.upper_hz, spacing));
    let first = lowest_bin(m, band, spacing);
    let last = highest_bin(m, band, spacing, n);
    let keep = |k: int| k >= 1 && holds_bin(m, band, spacing, k);
    assert forall|k: int| 0 <= k < n implies (first <= k < last + 1) == #[trigger] keep(k) by {
        if !lower.nan() {
            ieee::lemma_rounded(lower, k);
        }
        if !upper.nan() {
            ieee::lemma_rounded(upper, k);
        }
    }
    ieee::lemma_round_not_negative(m.over(band.centre_hz, spacing));
    if first <= last {
        let held = choice::lemma_row_is_a_choice(bins_db, first, last + 1);
        choice::lemma_same_choice(held, n, |k: int| first <= k < last + 1, keep);
        assert(bin_powers(m, bins_db.subrange(first, last + 1)) =~= Seq::new(
            held.len(),
            |i: int| m.power(num(TEN), m.over(bins_db[held[i]], num(TEN))),
        )) by {
            assert forall|i: int| 0 <= i < held.len() implies bins_db.subrange(first, last + 1)[i]
                == bins_db[#[trigger] held[i]] by {
                assert(choice::at_places(bins_db, held)[i] == bins_db[held[i]]);
            }
        }
        if held.len() == 1 {
            let powers = Seq::new(
                held.len(),
                |i: int| m.power(num(TEN), m.over(bins_db[held[i]], num(TEN))),
            );
            assert(powers.drop_last() =~= Seq::empty());
            reveal_with_fuel(arith::total, 2);
        }
        held
    } else {
        let held = Seq::<int>::empty();
        assert(choice::is_choice(held, n, keep));
        held
    }
}

/// The bin that stands for a band which holds none is the nearest to its centre of
/// those that are not DC, the higher one of two.
pub proof fn lemma_nearest_bin_is_nearest<C: Fn(Calc) -> F32>(
    m: Arith<C>,
    band: Band,
    spacing: F32,
    bins: int,
    k: int,
)
    requires
        1 <= k < bins <= usize::MAX,
        !m.over(band.centre_hz, spacing).nan(),
        !m.over(band.centre_hz, spacing).negative(),
    ensures
        ({
            let centre = m.over(band.centre_hz, spacing).value();
            let bin = nearest_bin(m, band, spacing, bins);
            let near = ieee::whole_value(bin) - centre;
            let other = ieee::whole_value(k) - centre;
            let (far, further) = (
                if near < 0 {
                    -near
                } else {
                    near
                },
                if other < 0 {
                    -other
                } else {
                    other
                },
            );
            far <= further && (far == further ==> k <= bin)
        }),
{
    let place = m.over(band.centre_hz, spacing);
    let rounded = place.round_int();
    let bin = nearest_bin(m, band, spacing, bins);
    ieee::lemma_round_not_negative(place);
    ieee::lemma_rounded(place, k);
    ieee::lemma_rounded(place, bin);
    ieee::lemma_whole_values_ascend(rounded, bin);
    ieee::lemma_whole_values_ascend(bin, rounded);
    ieee::lemma_whole_values_ascend(bin, k);
    ieee::lemma_whole_values_ascend(k, bin);
    ieee::lemma_whole_values_ascend(rounded, k);
    ieee::lemma_whole_values_ascend(k, rounded);
}

/// Where a band of a number stands: whole steps of the fraction from the reference, and
/// half a step beside it where the fraction is even. Its edges are half a step to either
/// side.
pub proof fn lemma_band_of_an_index<C: Fn(Calc) -> F32>(m: Arith<C>, fraction: u32, index: i32)
    ensures
        ({
            let (n, i) = (m.count(fraction as usize), m.whole(index));
            let ratio = num(OCTAVE_RATIO);
            let steps = if fraction % 2 == 1 {
                m.over(i, n)
            } else {
                m.over(m.plus(m.times(num(TWO), i), num(ONE)), m.times(num(TWO), n))
            };
            let centre = m.times(num(REFERENCE_HZ), m.power(ratio, steps));
            let half = m.power(ratio, m.over(num(ONE), m.times(num(TWO), n)));
            let band = band_around(&m, fraction, centre_of(&m, fraction, index));
            &&& band.centre_hz == centre
            &&& band.lower_hz == m.over(centre, half)
            &&& band.upper_hz == m.times(centre, half)
        }),
{
}

/// A centre is in range from one percent below the lowest frequency asked for to one
/// percent above the highest, both included, as long as it is a frequency.
pub proof fn lemma_range_has_slack<C: Fn(Calc) -> F32>(
    m: Arith<C>,
    centre: F32,
    min_hz: F32,
    max_hz: F32,
)
    requires
        num(ZERO).less(centre),
        centre.less(num(INFINITY)),
        !m.times(min_hz, num(SLACK_BELOW)).nan(),
        !m.times(max_hz, num(SLACK_ABOVE)).nan(),
    ensures
        in_range(&m, centre, min_hz, max_hz) <==> m.times(min_hz, num(SLACK_BELOW)).at_most(centre)
            && centre.at_most(m.times(max_hz, num(SLACK_ABOVE))),
{
}

/// A band can be resolved where its edges are at least a bin apart.
pub proof fn lemma_resolvable_bands<C: Fn(Calc) -> F32>(
    octaves: OctaveBands,
    m: Arith<C>,
    index: int,
    bin_spacing_hz: F32,
)
    requires
        0 <= index < octaves.spec_bands().len(),
    ensures
        octaves.resolvable(&m, index, bin_spacing_hz) <==> bin_spacing_hz.at_most(
            m.minus(octaves.spec_bands()[index].upper_hz, octaves.spec_bands()[index].lower_hz),
        ),
{
}

/// A preferred number is known by itself: where the mantissa is at no distance from one of
/// the series and at some distance from the others, that one is the closest.
pub proof fn lemma_preferred_number_is_its_own_nominal<C: Fn(Calc) -> F32>(
    m: Arith<C>,
    mantissa: F32,
    at: int,
    j: int,
)
    requires
        is_closest(m, mantissa, at),
        0 <= j < 11,
        m.minus(num(PREFERRED[j]), mantissa).magnitude() == 0,
        forall|i: int|
            0 <= i < 11 && i != j ==> m.minus(num(#[trigger] PREFERRED[i]), mantissa).magnitude()
                != 0,
    ensures
        at == j,
{
    assert(distance(&m, PREFERRED[at], mantissa).total_rank() <= distance(
        &m,
        PREFERRED[j],
        mantissa,
    ).total_rank());
}

} // verus!

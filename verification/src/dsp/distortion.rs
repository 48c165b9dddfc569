//! Harmonic distortion from a spectrum containing a steady tone.
//!
//! Everything that comes back and is not the tone is something the system added.
//! Every peak is summed across its main lobe, because a single bin under-reads a
//! tone that lies between bins. Orders above Nyquist would alias back into the
//! band, so they are counted and not measured.

use vstd::prelude::*;
use vstd::string::StringExecFns;

use crate::arith;
use crate::arith::{sum_of, Arith, Calc};
use crate::choice;
use crate::dsp::peak;
use crate::dsp::peak::find_last_peak;
use crate::ieee;
use crate::ieee::F32;
use crate::numbers::{num, TEN, TWENTY, ZERO};
use crate::order;
use crate::order::sorted_numbers;
use crate::text;
use crate::text::decimal_text;

verus! {

/// Floor for decibel output.
pub const DISTORTION_FLOOR_DB: u32 = 0xC348_0000;

/// One hundred.
pub const HUNDRED: u32 = 0x42C8_0000;

/// One harmonic of the fundamental.
#[derive(Debug, Clone, Copy, PartialEq, Eq, Structural)]
pub struct Harmonic {
    /// Harmonic number: 2 is the octave above the fundamental.
    pub order: u32,
    /// Where it was found, which may differ slightly from the exact multiple.
    pub hz: F32,
    /// Absolute level in the same reference as the input spectrum.
    pub level_db: F32,
    /// Level relative to the fundamental.
    pub relative_db: F32,
    /// The same ratio as a percentage of the fundamental's amplitude.
    pub percent: F32,
}

/// A distortion measurement.
#[derive(Debug, Clone, PartialEq)]
pub struct Distortion {
    /// Fundamental frequency, refined from the spectrum.
    pub fundamental_hz: F32,
    /// Fundamental level.
    pub fundamental_db: F32,
    /// Harmonics found, ascending by order.
    pub harmonics: Vec<Harmonic>,
    /// Total harmonic distortion as a percentage of the fundamental.
    pub thd_percent: F32,
    /// The same figure in decibels relative to the fundamental.
    pub thd_db: F32,
    /// Total harmonic distortion plus noise: everything that is not the
    /// fundamental.
    pub thd_n_percent: F32,
    /// The same figure in decibels.
    pub thd_n_db: F32,
    /// Median level of the bins that are neither fundamental nor harmonic.
    pub noise_floor_db: F32,
    /// Harmonic orders above Nyquist, which were not measured.
    pub orders_above_nyquist: u32,
}

/// What a distortion measurement amounts to.
#[verifier::ext_equal]
pub struct DistortionModel {
    pub fundamental_hz: F32,
    pub fundamental_db: F32,
    pub harmonics: Seq<Harmonic>,
    pub thd_percent: F32,
    pub thd_db: F32,
    pub thd_n_percent: F32,
    pub thd_n_db: F32,
    pub noise_floor_db: F32,
    pub orders_above_nyquist: u32,
}

impl View for Distortion {
    type V = DistortionModel;

    open spec fn view(&self) -> DistortionModel {
        DistortionModel {
            fundamental_hz: self.fundamental_hz,
            fundamental_db: self.fundamental_db,
            harmonics: self.harmonics@,
            thd_percent: self.thd_percent,
            thd_db: self.thd_db,
            thd_n_percent: self.thd_n_percent,
            thd_n_db: self.thd_n_db,
            noise_floor_db: self.noise_floor_db,
            orders_above_nyquist: self.orders_above_nyquist,
        }
    }
}

/// Whether the harmonic of an order stands at a place, and nowhere before it.
pub open spec fn first_of_order(harmonics: Seq<Harmonic>, order: u32, at: int) -> bool {
    &&& 0 <= at < harmonics.len()
    &&& harmonics[at].order == order
    &&& forall|i: int| 0 <= i < at ==> #[trigger] harmonics[i].order != order
}

impl Distortion {
    pub open spec fn spec_highest_order(self) -> u32 {
        if self.harmonics@.len() == 0 {
            1
        } else {
            self.harmonics@.last().order
        }
    }

    /// Highest harmonic order actually measured, one when there is none.
    pub fn highest_order(&self) -> (order: u32)
        ensures
            order == self.spec_highest_order(),
    {
        if self.harmonics.len() == 0 {
            1
        } else {
            self.harmonics[self.harmonics.len() - 1].order
        }
    }

    /// A harmonic by order.
    pub fn harmonic(&self, order: u32) -> (found: Option<Harmonic>)
        ensures
            found is None <==> forall|i: int|
                0 <= i < self.harmonics@.len() ==> #[trigger] self.harmonics@[i].order != order,
            found matches Some(harmonic) ==> exists|at: int|
                first_of_order(self.harmonics@, order, at) && #[trigger] self.harmonics@[at]
                    == harmonic,
    {
        let mut i: usize = 0;
        while i < self.harmonics.len()
            invariant
                i <= self.harmonics@.len(),
                forall|k: int| 0 <= k < i ==> #[trigger] self.harmonics@[k].order != order,
            decreases self.harmonics@.len() - i,
        {
            let harmonic = self.harmonics[i];
            if harmonic.order == order {
                assert(first_of_order(self.harmonics@, order, i as int));
                return Some(harmonic);
            }
            i = i + 1;
        }
        None
    }

    /// A label honest about how many orders the figure covers. `percent` is the
    /// percentage written out.
    pub fn thd_label(&self, percent: &str) -> (label: String)
        ensures
            label@ == if self.orders_above_nyquist > 0 {
                "THD "@ + percent@ + "% (to H"@ + text::decimal(self.spec_highest_order() as nat)
                    + ")"@
            } else {
                "THD "@ + percent@ + "%"@
            },
    {
        let mut label = String::from_str("THD ");
        label.append(percent);
        if self.orders_above_nyquist > 0 {
            label.append("% (to H");
            label.append(decimal_text(self.highest_order() as u64).as_str());
            label.append(")");
        } else {
            label.append("%");
        }
        label
    }
}

/// How to look for harmonics.
#[derive(Debug, Clone, Copy, PartialEq, Eq, Structural)]
pub struct DistortionConfig {
    /// Highest harmonic order to look for.
    pub max_order: u32,
    /// How far either side of the expected place to search for the peak, in bins.
    pub search_bins: usize,
    /// How many bins either side of a peak to sum.
    pub lobe_bins: usize,
}

impl Default for DistortionConfig {
    fn default() -> (config: DistortionConfig)
        ensures
            config == (DistortionConfig { max_order: 10, search_bins: 4, lobe_bins: 3 }),
    {
        DistortionConfig { max_order: 10, search_bins: 4, lobe_bins: 3 }
    }
}

/// The lowest bin within `reach` of `centre`.
pub open spec fn lowest(centre: int, reach: int) -> int {
    if centre >= reach {
        centre - reach
    } else {
        0
    }
}

/// The highest bin within `reach` of `centre`, among `bins` bins.
pub open spec fn highest(centre: int, reach: int, bins: int) -> int {
    if centre + reach < bins {
        centre + reach
    } else {
        bins - 1
    }
}

fn lowest_bin(centre: usize, reach: usize) -> (low: usize)
    ensures
        low == lowest(centre as int, reach as int),
{
    if centre >= reach {
        centre - reach
    } else {
        0
    }
}

fn highest_bin(centre: usize, reach: usize, bins: usize) -> (high: usize)
    requires
        bins > 0,
    ensures
        high == highest(centre as int, reach as int, bins as int),
{
    if centre < bins && reach < bins - centre {
        centre + reach
    } else {
        bins - 1
    }
}

/// The loudest bin within `reach` of `centre`, never DC. The higher one of equals.
pub open spec fn near(power: Seq<F32>, centre: int, reach: int) -> Option<int> {
    let low = if lowest(centre, reach) == 0 {
        1
    } else {
        lowest(centre, reach)
    };
    let high = highest(centre, reach, power.len() as int);
    if low > high {
        None
    } else {
        Some(low + peak::last_peak(power.subrange(low, high + 1)))
    }
}

/// Loudest bin within `window` of `centre`, skipping DC.
fn peak_near(power_bins: &[F32], centre: usize, window: usize) -> (bin: Option<usize>)
    requires
        power_bins@.len() > 0,
    ensures
        (match bin {
            Some(b) => near(power_bins@, centre as int, window as int) == Some(b as int) && 0 < b
                < power_bins@.len(),
            None => near(power_bins@, centre as int, window as int) is None,
        }),
{
    let mut low: usize = lowest_bin(centre, window);
    if low == 0 {
        low = 1;
    }
    let high: usize = highest_bin(centre, window, power_bins.len());
    if low > high {
        return None;
    }
    let part = vstd::slice::slice_subrange(power_bins, low, high + 1);
    match find_last_peak(part) {
        Some(at) => Some(low + at),
        None => None,
    }
}

/// The lowest bin of a peak's main lobe. DC is never part of a tone.
pub open spec fn lobe_start(centre: int, lobe: int) -> int {
    if lowest(centre, lobe) == 0 {
        1
    } else {
        lowest(centre, lobe)
    }
}

fn lobe_low(centre: usize, lobe: usize) -> (low: usize)
    ensures
        low == lobe_start(centre as int, lobe as int),
{
    let low: usize = lowest_bin(centre, lobe);
    if low == 0 {
        1
    } else {
        low
    }
}

/// The bins of a peak's main lobe.
pub open spec fn lobe_of(power: Seq<F32>, centre: int, lobe: int) -> Seq<F32> {
    power.subrange(lobe_start(centre, lobe), highest(centre, lobe, power.len() as int) + 1)
}

/// Total power across a peak's main lobe.
pub open spec fn lobe_total<C: Fn(Calc) -> F32>(
    m: Arith<C>,
    power: Seq<F32>,
    centre: int,
    lobe: int,
) -> F32 {
    arith::total(m, lobe_of(power, centre, lobe))
}

/// Total power across a peak's main lobe.
fn lobe_power<C: Fn(Calc) -> F32>(
    m: &Arith<C>,
    power_bins: &[F32],
    centre: usize,
    lobe: usize,
) -> (power: F32)
    requires
        0 < centre < power_bins@.len(),
    ensures
        power == lobe_total(*m, power_bins@, centre as int, lobe as int),
{
    let low: usize = lobe_low(centre, lobe);
    let high: usize = highest_bin(centre, lobe, power_bins.len());
    sum_of(m, vstd::slice::slice_subrange(power_bins, low, high + 1))
}

/// The power of each bin of a lobe times its place.
pub open spec fn moments<C: Fn(Calc) -> F32>(m: Arith<C>, lobe: Seq<F32>, low: int) -> Seq<F32> {
    Seq::new(lobe.len(), |i: int| m.times(lobe[i], m.count((low + i) as usize)))
}

/// Power-weighted centre of a lobe, in hertz; the place of its peak where the lobe
/// holds no power.
pub open spec fn centroid<C: Fn(Calc) -> F32>(
    m: Arith<C>,
    power: Seq<F32>,
    centre: int,
    lobe: int,
    spacing: F32,
) -> F32 {
    let bins = lobe_of(power, centre, lobe);
    let weight = arith::total(m, bins);
    let moment = arith::total(m, moments(m, bins, lobe_start(centre, lobe)));
    if num(ZERO).lt(weight) {
        m.times(m.over(moment, weight), spacing)
    } else {
        m.times(m.count(centre as usize), spacing)
    }
}

/// Power-weighted centre of a lobe, in hertz.
fn centroid_hz<C: Fn(Calc) -> F32>(
    m: &Arith<C>,
    power_bins: &[F32],
    centre: usize,
    lobe: usize,
    spacing: F32,
) -> (hz: F32)
    requires
        0 < centre < power_bins@.len(),
    ensures
        hz == centroid(*m, power_bins@, centre as int, lobe as int, spacing),
{
    let low: usize = lobe_low(centre, lobe);
    let high: usize = highest_bin(centre, lobe, power_bins.len());
    let ghost bins = lobe_of(power_bins@, centre as int, lobe as int);
    let ghost turning = moments(*m, bins, low as int);
    let mut weight = num(ZERO);
    let mut moment = num(ZERO);
    let mut bin: usize = low;
    assert(bins.take(0) =~= Seq::<F32>::empty());
    assert(turning.take(0) =~= Seq::<F32>::empty());
    while bin <= high
        invariant
            low <= bin <= high + 1,
            high < power_bins@.len(),
            bins == power_bins@.subrange(low as int, high + 1),
            turning == moments(*m, bins, low as int),
            weight == arith::total(*m, bins.take(bin - low)),
            moment == arith::total(*m, turning.take(bin - low)),
        decreases high + 1 - bin,
    {
        let power = power_bins[bin];
        weight = m.plus(weight, power);
        moment = m.plus(moment, m.times(power, m.count(bin)));
        proof {
            assert(bins.take(bin + 1 - low).drop_last() =~= bins.take(bin - low));
            assert(turning.take(bin + 1 - low).drop_last() =~= turning.take(bin - low));
            assert(turning.take(bin + 1 - low).last() == turning[bin - low]);
        }
        bin = bin + 1;
    }
    assert(bins.take(bin - low) =~= bins);
    assert(turning.take(bin - low) =~= turning);
    if num(ZERO).lt(weight) {
        m.times(m.over(moment, weight), spacing)
    } else {
        m.times(m.count(centre), spacing)
    }
}

/// The bins claimed once the lobe around `centre` is claimed too.
pub open spec fn marked(claimed: Seq<bool>, centre: int, lobe: int) -> Seq<bool> {
    Seq::new(claimed.len(), |i: int| claimed[i] || (centre - lobe <= i <= centre + lobe))
}

/// Claim the bins of a lobe.
pub fn mark(claimed: &mut [bool], centre: usize, lobe: usize)
    ensures
        final(claimed)@ == marked(old(claimed)@, centre as int, lobe as int),
{
    let n: usize = claimed.len();
    if n > 0 {
        let low: usize = lowest_bin(centre, lobe);
        let high: usize = highest_bin(centre, lobe, n);
        let mut i: usize = low;
        while i <= high
            invariant
                low <= i,
                i <= high + 1 || low > high,
                high < n,
                n == claimed@.len(),
                n == old(claimed)@.len(),
                forall|k: int|
                    0 <= k < n ==> #[trigger] claimed@[k] == (old(claimed)@[k] || (low <= k < i && k
                        <= high)),
            decreases high + 1 - i,
        {
            claimed[i] = true;
            i = i + 1;
        }
    }
    assert(claimed@ =~= marked(old(claimed)@, centre as int, lobe as int));
}

/// Power to decibels.
#[verifier::allow_in_spec]
pub fn to_db<C: Fn(Calc) -> F32>(m: &Arith<C>, power: F32) -> F32
    returns
        (if num(ZERO).lt(power) {
            m.times(num(TEN), m.log10(power)).max(num(DISTORTION_FLOOR_DB))
        } else {
            num(DISTORTION_FLOOR_DB)
        }),
{
    if num(ZERO).lt(power) {
        m.times(num(TEN), m.log10(power)).max(num(DISTORTION_FLOOR_DB))
    } else {
        num(DISTORTION_FLOOR_DB)
    }
}

/// An amplitude ratio to decibels.
#[verifier::allow_in_spec]
pub fn amplitude_db<C: Fn(Calc) -> F32>(m: &Arith<C>, ratio: F32) -> F32
    returns
        (if num(ZERO).lt(ratio) {
            m.times(num(TWENTY), m.log10(ratio)).max(num(DISTORTION_FLOOR_DB))
        } else {
            num(DISTORTION_FLOOR_DB)
        }),
{
    if num(ZERO).lt(ratio) {
        m.times(num(TWENTY), m.log10(ratio)).max(num(DISTORTION_FLOOR_DB))
    } else {
        num(DISTORTION_FLOOR_DB)
    }
}

/// A spectrum with the tone that was found in it.
pub struct Tone {
    pub power: Seq<F32>,
    pub spacing: F32,
    pub config: DistortionConfig,
    /// The bin of the fundamental.
    pub bin: int,
}

/// What the search for harmonics has found so far.
#[verifier::ext_equal]
pub struct Search {
    pub harmonics: Seq<Harmonic>,
    /// Power of all harmonics found.
    pub power: F32,
    /// Bins that belong to the fundamental or to a harmonic.
    pub claimed: Seq<bool>,
    /// Orders above Nyquist.
    pub above: nat,
}

impl Tone {
    pub open spec fn valid(self) -> bool {
        0 < self.bin < self.power.len()
    }

    pub open spec fn lobe(self) -> int {
        self.config.lobe_bins as int
    }

    pub open spec fn fundamental_power<C: Fn(Calc) -> F32>(self, m: Arith<C>) -> F32 {
        lobe_total(m, self.power, self.bin, self.lobe())
    }

    pub open spec fn fundamental_hz<C: Fn(Calc) -> F32>(self, m: Arith<C>) -> F32 {
        centroid(m, self.power, self.bin, self.lobe(), self.spacing)
    }

    /// Where the spectrum ends.
    pub open spec fn nyquist<C: Fn(Calc) -> F32>(self, m: Arith<C>) -> F32 {
        m.times(m.count((self.power.len() - 1) as usize), self.spacing)
    }

    /// Where the harmonic of an order is expected.
    pub open spec fn expected<C: Fn(Calc) -> F32>(self, m: Arith<C>, order: u32) -> F32 {
        m.times(self.fundamental_hz(m), m.count(order as usize))
    }

    /// Whether an order lies above Nyquist.
    pub open spec fn beyond<C: Fn(Calc) -> F32>(self, m: Arith<C>, order: u32) -> bool {
        self.nyquist(m).lt(self.expected(m, order))
    }

    /// The bin in which the harmonic of an order is found.
    pub open spec fn harmonic_bin<C: Fn(Calc) -> F32>(self, m: Arith<C>, order: u32) -> Option<
        int,
    > {
        near(
            self.power,
            ieee::saturated(
                m.over(self.expected(m, order), self.spacing).round_int(),
                usize::MAX as int,
            ),
            self.config.search_bins as int,
        )
    }

    /// The harmonic of an order, found in a bin.
    pub open spec fn harmonic_at<C: Fn(Calc) -> F32>(
        self,
        m: Arith<C>,
        order: u32,
        bin: int,
    ) -> Harmonic {
        let power = lobe_total(m, self.power, bin, self.lobe());
        let ratio = m.root(m.over(power, self.fundamental_power(m)));
        Harmonic {
            order,
            hz: centroid(m, self.power, bin, self.lobe(), self.spacing),
            level_db: to_db(&m, power),
            relative_db: amplitude_db(&m, ratio),
            percent: m.times(ratio, num(HUNDRED)),
        }
    }

    /// What has been found once every order from two on has been looked for, `orders`
    /// orders in all.
    pub open spec fn searched<C: Fn(Calc) -> F32>(self, m: Arith<C>, orders: nat) -> Search
        decreases orders,
    {
        if orders == 0 {
            Search {
                harmonics: Seq::empty(),
                power: num(ZERO),
                claimed: marked(
                    Seq::new(self.power.len(), |i: int| false),
                    self.bin,
                    self.lobe(),
                ),
                above: 0,
            }
        } else {
            let before = self.searched(m, (orders - 1) as nat);
            let order = (orders + 1) as u32;
            if self.beyond(m, order) {
                Search { above: before.above + 1, ..before }
            } else {
                match self.harmonic_bin(m, order) {
                    None => before,
                    Some(bin) => Search {
                        harmonics: before.harmonics.push(self.harmonic_at(m, order, bin)),
                        power: m.plus(
                            before.power,
                            lobe_total(m, self.power, bin, self.lobe()),
                        ),
                        claimed: marked(before.claimed, bin, self.lobe()),
                        ..before
                    },
                }
            }
        }
    }

    /// How many orders are looked for.
    pub open spec fn orders(self) -> nat {
        if self.config.max_order < 2 {
            0
        } else {
            (self.config.max_order - 1) as nat
        }
    }

    /// Bins that are neither DC nor the fundamental's own lobe.
    pub open spec fn residual(self) -> Seq<bool> {
        Seq::new(
            self.power.len(),
            |i: int| i > 0 && !(self.bin - self.lobe() <= i <= self.bin + self.lobe()),
        )
    }

    /// The whole measurement.
    pub open spec fn measured<C: Fn(Calc) -> F32>(self, m: Arith<C>) -> DistortionModel {
        let search = self.searched(m, self.orders());
        let fundamental_power = self.fundamental_power(m);
        let residual_power = arith::total(m, picked(self.power, self.residual()));
        let unclaimed = picked(
            self.power,
            Seq::new(self.power.len(), |i: int| i > 0 && !search.claimed[i]),
        );
        let thd_ratio = m.root(m.over(search.power, fundamental_power));
        let thd_n_ratio = m.root(m.over(residual_power, fundamental_power));
        DistortionModel {
            fundamental_hz: self.fundamental_hz(m),
            fundamental_db: to_db(&m, fundamental_power),
            harmonics: search.harmonics,
            thd_percent: m.times(thd_ratio, num(HUNDRED)),
            thd_db: amplitude_db(&m, thd_ratio),
            thd_n_percent: m.times(thd_n_ratio, num(HUNDRED)),
            thd_n_db: amplitude_db(&m, thd_n_ratio),
            noise_floor_db: to_db(&m, median(unclaimed)),
            orders_above_nyquist: search.above as u32,
        }
    }
}

/// The numbers that are kept, in their order.
pub open spec fn picked(numbers: Seq<F32>, keep: Seq<bool>) -> Seq<F32>
    decreases numbers.len(),
{
    if numbers.len() == 0 {
        Seq::empty()
    } else if keep[numbers.len() - 1] {
        picked(numbers.drop_last(), keep).push(numbers.last())
    } else {
        picked(numbers.drop_last(), keep)
    }
}

fn pick(numbers: &[F32], keep: &[bool]) -> (kept: Vec<F32>)
    requires
        keep@.len() == numbers@.len(),
    ensures
        kept@ == picked(numbers@, keep@),
{
    let mut kept: Vec<F32> = Vec::new();
    let mut i: usize = 0;
    while i < numbers.len()
        invariant
            i <= numbers@.len(),
            keep@.len() == numbers@.len(),
            kept@ == picked(numbers@.take(i as int), keep@),
        decreases numbers@.len() - i,
    {
        if keep[i] {
            kept.push(numbers[i]);
        }
        i = i + 1;
        assert(numbers@.take(i as int).drop_last() =~= numbers@.take(i - 1));
    }
    assert(numbers@.take(i as int) =~= numbers@);
    kept
}

/// The number in the middle of the ascending ones, the upper one of two, zero of
/// none.
pub open spec fn median(numbers: Seq<F32>) -> F32 {
    if numbers.len() == 0 {
        num(ZERO)
    } else {
        numbers.sort_by(order::ascending())[numbers.len() as int / 2]
    }
}

fn median_of(numbers: &[F32]) -> (middle: F32)
    ensures
        middle == median(numbers@),
{
    if numbers.len() == 0 {
        num(ZERO)
    } else {
        let sorted = sorted_numbers(numbers);
        sorted[numbers.len() / 2]
    }
}

/// The bin of the fundamental: the loudest one near a frequency that is known, or
/// else the loudest of all. Bin zero is DC and never a tone.
pub open spec fn fundamental_bin<C: Fn(Calc) -> F32>(
    m: Arith<C>,
    power: Seq<F32>,
    spacing: F32,
    fundamental_hz: Option<F32>,
    config: DistortionConfig,
) -> Option<int> {
    match fundamental_hz {
        Some(hz) => near(
            power,
            ieee::saturated(m.over(hz, spacing).round_int(), usize::MAX as int),
            config.search_bins as int,
        ),
        None => Some(1 + peak::last_peak(power.skip(1))),
    }
}

/// What a spectrum says about distortion: `None` if it is too short, the bin spacing
/// is not positive, or no fundamental can be found.
pub open spec fn analysed<C: Fn(Calc) -> F32>(
    m: Arith<C>,
    power: Seq<F32>,
    spacing: F32,
    fundamental_hz: Option<F32>,
    config: DistortionConfig,
) -> Option<DistortionModel> {
    if power.len() < 4 || spacing.le(num(ZERO)) {
        None
    } else {
        match fundamental_bin(m, power, spacing, fundamental_hz, config) {
            None => None,
            Some(bin) => {
                let tone = Tone { power, spacing, config, bin };
                if tone.fundamental_power(m).le(num(ZERO)) {
                    None
                } else {
                    Some(tone.measured(m))
                }
            },
        }
    }
}

/// Measure distortion in a spectrum.
///
/// `power_bins` is linear mean-square power per bin, not decibels.
/// `fundamental_hz` may be given when it is known, which matters when a harmonic
/// rivals the fundamental.
pub fn analyse<C: Fn(Calc) -> F32>(
    m: &Arith<C>,
    power_bins: &[F32],
    bin_spacing_hz: F32,
    fundamental_hz: Option<F32>,
    config: &DistortionConfig,
) -> (distortion: Option<Distortion>)
    ensures
        (match distortion {
            Some(d) => analysed(*m, power_bins@, bin_spacing_hz, fundamental_hz, *config) == Some(
                d@,
            ),
            None => analysed(*m, power_bins@, bin_spacing_hz, fundamental_hz, *config) is None,
        }),
{
    let n: usize = power_bins.len();
    if n < 4 || bin_spacing_hz.le(num(ZERO)) {
        return None;
    }
    let bin: usize = match fundamental_hz {
        Some(hz) => {
            let nominal: usize = m.over(hz, bin_spacing_hz).round_to_usize();
            match peak_near(power_bins, nominal, config.search_bins) {
                Some(bin) => bin,
                None => {
                    return None;
                },
            }
        },
        None => {
            let rest = vstd::slice::slice_subrange(power_bins, 1, n);
            assert(rest@ =~= power_bins@.skip(1));
            match find_last_peak(rest) {
                Some(at) => at + 1,
                None => {
                    return None;
                },
            }
        },
    };
    let ghost tone = Tone { power: power_bins@, spacing: bin_spacing_hz, config: *config, bin: bin as int };
    let fundamental_power = lobe_power(m, power_bins, bin, config.lobe_bins);
    if fundamental_power.le(num(ZERO)) {
        return None;
    }
    // The power centroid of the lobe recovers most of the position between bins that
    // a bare peak index throws away.
    let fundamental_hz = centroid_hz(m, power_bins, bin, config.lobe_bins, bin_spacing_hz);

    let nyquist = m.times(m.count(n - 1), bin_spacing_hz);
    let mut harmonics: Vec<Harmonic> = Vec::new();
    let mut harmonic_power = num(ZERO);
    let mut claimed: Vec<bool> = vec![false; n];
    assert(claimed@ =~= Seq::new(n as nat, |i: int| false));
    mark(claimed.as_mut_slice(), bin, config.lobe_bins);
    let mut above: u32 = 0;
    let orders: u32 = if config.max_order < 2 {
        0
    } else {
        config.max_order - 1
    };
    let mut done: u32 = 0;
    while done < orders
        invariant
            done <= orders,
            orders < u32::MAX,
            above <= done,
            n == power_bins@.len(),
            n >= 4,
            0 < bin < n,
            claimed@.len() == n,
            tone == (Tone {
                power: power_bins@,
                spacing: bin_spacing_hz,
                config: *config,
                bin: bin as int,
            }),
            fundamental_power == tone.fundamental_power(*m),
            fundamental_hz == tone.fundamental_hz(*m),
            nyquist == tone.nyquist(*m),
            tone.searched(*m, done as nat) == (Search {
                harmonics: harmonics@,
                power: harmonic_power,
                claimed: claimed@,
                above: above as nat,
            }),
        decreases orders - done,
    {
        let order: u32 = done + 2;
        let expected = m.times(fundamental_hz, m.count(order as usize));
        done = done + 1;
        if nyquist.lt(expected) {
            // Aliases back into the band if measured, so it is not measured.
            above = above + 1;
        } else {
            let nominal: usize = m.over(expected, bin_spacing_hz).round_to_usize();
            if let Some(at) = peak_near(power_bins, nominal, config.search_bins) {
                let power = lobe_power(m, power_bins, at, config.lobe_bins);
                mark(claimed.as_mut_slice(), at, config.lobe_bins);
                harmonic_power = m.plus(harmonic_power, power);
                let ratio = m.root(m.over(power, fundamental_power));
                harmonics.push(
                    Harmonic {
                        order,
                        hz: centroid_hz(m, power_bins, at, config.lobe_bins, bin_spacing_hz),
                        level_db: to_db(m, power),
                        relative_db: amplitude_db(m, ratio),
                        percent: m.times(ratio, num(HUNDRED)),
                    },
                );
            }
        }
    }

    // Harmonics stay in the residual, because distortion plus noise is by definition
    // both.
    let mut outside: Vec<bool> = Vec::new();
    let mut unclaimed: Vec<bool> = Vec::new();
    let mut i: usize = 0;
    while i < n
        invariant
            i <= n,
            n == claimed@.len(),
            outside@.len() == i,
            unclaimed@.len() == i,
            forall|k: int|
                0 <= k < i ==> #[trigger] outside@[k] == (k > 0 && !(bin - config.lobe_bins <= k
                    <= bin + config.lobe_bins)),
            forall|k: int| 0 <= k < i ==> #[trigger] unclaimed@[k] == (k > 0 && !claimed@[k]),
        decreases n - i,
    {
        let distance: usize = if i >= bin {
            i - bin
        } else {
            bin - i
        };
        outside.push(i > 0 && distance > config.lobe_bins);
        unclaimed.push(i > 0 && !claimed[i]);
        i = i + 1;
    }
    assert(outside@ =~= tone.residual());
    let residual_power = sum_of(m, pick(power_bins, outside.as_slice()).as_slice());
    assert(unclaimed@ =~= Seq::new(n as nat, |i: int| i > 0 && !claimed@[i]));
    // A stray spur does not drag a median up the way it would a mean.
    let noise_floor = median_of(pick(power_bins, unclaimed.as_slice()).as_slice());

    let thd_ratio = m.root(m.over(harmonic_power, fundamental_power));
    let thd_n_ratio = m.root(m.over(residual_power, fundamental_power));
    Some(
        Distortion {
            fundamental_hz,
            fundamental_db: to_db(m, fundamental_power),
            harmonics,
            thd_percent: m.times(thd_ratio, num(HUNDRED)),
            thd_db: amplitude_db(m, thd_ratio),
            thd_n_percent: m.times(thd_n_ratio, num(HUNDRED)),
            thd_n_db: amplitude_db(m, thd_n_ratio),
            noise_floor_db: to_db(m, noise_floor),
            orders_above_nyquist: above,
        },
    )
}

/// Harmonics come in ascending order, every one of an order that was asked for and
/// lies below Nyquist; with the orders above Nyquist they are no more than were
/// asked for.
pub proof fn lemma_harmonics_ascend<C: Fn(Calc) -> F32>(tone: Tone, m: Arith<C>, orders: nat)
    requires
        orders < u32::MAX,
    ensures
        ({
            let search = tone.searched(m, orders);
            &&& search.harmonics.len() + search.above <= orders
            &&& forall|i: int|
                0 <= i < search.harmonics.len() ==> 2 <= #[trigger] search.harmonics[i].order
                    <= orders + 1 && !tone.beyond(m, search.harmonics[i].order)
            &&& forall|i: int, j: int|
                0 <= i < j < search.harmonics.len() ==> #[trigger] search.harmonics[i].order
                    < #[trigger] search.harmonics[j].order
        }),
    decreases orders,
{
    if orders > 0 {
        lemma_harmonics_ascend(tone, m, (orders - 1) as nat);
    }
}

/// Every order asked for that lies above Nyquist is counted as such, and no other
/// is: `orders_above_nyquist` says how many of them the figure does not cover.
pub proof fn lemma_orders_above_nyquist_are_counted<C: Fn(Calc) -> F32>(
    tone: Tone,
    m: Arith<C>,
    orders: nat,
)
    requires
        orders < u32::MAX,
    ensures
        tone.searched(m, orders).above == Set::new(
            |order: u32| 2 <= order <= orders + 1 && tone.beyond(m, order),
        ).len(),
        Set::new(|order: u32| 2 <= order <= orders + 1 && tone.beyond(m, order)).finite(),
    decreases orders,
{
    let here = Set::new(|order: u32| 2 <= order <= orders + 1 && tone.beyond(m, order));
    if orders == 0 {
        assert(here =~= Set::empty());
    } else {
        let before = Set::new(|order: u32| 2 <= order <= orders && tone.beyond(m, order));
        lemma_orders_above_nyquist_are_counted(tone, m, (orders - 1) as nat);
        let order = (orders + 1) as u32;
        assert(before =~= Set::new(
            |order: u32| 2 <= order <= (orders - 1) as nat + 1 && tone.beyond(m, order),
        ));
        if tone.beyond(m, order) {
            assert(here =~= before.insert(order));
        } else {
            assert(here =~= before);
        }
    }
}

/// A spectrum that holds power at DC only holds no tone. Zeros are taken to add up to
/// zero, as they do in any arithmetic worth the name.
pub proof fn lemma_dc_is_no_tone<C: Fn(Calc) -> F32>(
    m: Arith<C>,
    power: Seq<F32>,
    spacing: F32,
    fundamental_hz: Option<F32>,
    config: DistortionConfig,
)
    requires
        forall|k: int| 1 <= k < power.len() ==> #[trigger] power[k] == num(ZERO),
        m.plus(num(ZERO), num(ZERO)) == num(ZERO),
    ensures
        analysed(m, power, spacing, fundamental_hz, config) is None,
{
    if power.len() >= 4 {
        if let Some(bin) = fundamental_bin(m, power, spacing, fundamental_hz, config) {
            match fundamental_hz {
                Some(hz) => {
                    let centre = ieee::saturated(
                        m.over(hz, spacing).round_int(),
                        usize::MAX as int,
                    );
                    let reach = config.search_bins as int;
                    let low = lobe_start(centre, reach);
                    let high = highest(centre, reach, power.len() as int);
                    peak::lemma_there_is_a_last_peak(power.subrange(low, high + 1));
                },
                None => {
                    peak::lemma_there_is_a_last_peak(power.skip(1));
                },
            }
            let reach = config.lobe_bins as int;
            let lobe = lobe_of(power, bin, reach);
            assert forall|k: int| 0 <= k < lobe.len() implies #[trigger] lobe[k] == num(ZERO) by {
                assert(lobe[k] == power[lobe_start(bin, reach) + k]);
            }
            lemma_nothing_adds_up(m, lobe);
            assert(num(ZERO).le(num(ZERO)));
        }
    }
}

proof fn lemma_nothing_adds_up<C: Fn(Calc) -> F32>(m: Arith<C>, numbers: Seq<F32>)
    requires
        forall|k: int| 0 <= k < numbers.len() ==> #[trigger] numbers[k] == num(ZERO),
        m.plus(num(ZERO), num(ZERO)) == num(ZERO),
    ensures
        arith::total(m, numbers) == num(ZERO),
    decreases numbers.len(),
{
    if numbers.len() > 0 {
        lemma_nothing_adds_up(m, numbers.drop_last());
    }
}

/// The numbers that are kept stand at the places that are kept.
proof fn lemma_picked_is_a_choice(numbers: Seq<F32>, keep: Seq<bool>) -> (places: Seq<int>)
    requires
        numbers.len() <= keep.len(),
    ensures
        choice::is_choice(places, numbers.len() as int, |k: int| keep[k]),
        picked(numbers, keep) == choice::at_places(numbers, places),
    decreases numbers.len(),
{
    let chosen = |k: int| keep[k];
    if numbers.len() == 0 {
        assert(picked(numbers, keep) =~= choice::at_places(numbers, Seq::<int>::empty()));
        Seq::empty()
    } else {
        let rest = numbers.drop_last();
        let before = lemma_picked_is_a_choice(rest, keep);
        let end = rest.len() as int;
        choice::lemma_choice_goes_on(before, end, chosen);
        let places = if keep[end] {
            before.push(end)
        } else {
            before
        };
        assert forall|i: int| 0 <= i < before.len() implies rest[#[trigger] before[i]]
            == numbers[before[i]] by {
            assert(0 <= before[i] < end);
        }
        assert(picked(numbers, keep) =~= choice::at_places(numbers, places));
        places
    }
}

/// The lobe of a peak is made of the bins within its reach, on both sides and DC never
/// among them.
proof fn lemma_lobe_is_a_choice(power: Seq<F32>, centre: int, lobe: int) -> (own: Seq<int>)
    requires
        0 < centre < power.len(),
        0 <= lobe,
    ensures
        choice::is_choice(
            own,
            power.len() as int,
            |k: int| k > 0 && centre - lobe <= k <= centre + lobe,
        ),
        lobe_of(power, centre, lobe) == choice::at_places(power, own),
{
    let low = lobe_start(centre, lobe);
    let high = highest(centre, lobe, power.len() as int) + 1;
    let own = choice::lemma_row_is_a_choice(power, low, high);
    choice::lemma_same_choice(
        own,
        power.len() as int,
        |k: int| low <= k < high,
        |k: int| k > 0 && centre - lobe <= k <= centre + lobe,
    );
    own
}

/// What is found near a place is the loudest bin within reach that is not DC, the last
/// of equals; nothing is found only where there is no such bin.
proof fn lemma_near_is_the_loudest(power: Seq<F32>, centre: int, reach: int)
    requires
        0 <= centre,
        0 <= reach,
    ensures
        (match near(power, centre, reach) {
            Some(bin) => choice::is_greatest(
                power,
                |k: int| k > 0 && centre - reach <= k <= centre + reach,
                bin,
            ),
            None => forall|k: int|
                0 < k < power.len() ==> !(centre - reach <= #[trigger] (k + 0) <= centre + reach),
        }),
{
    let low = lobe_start(centre, reach);
    let high = highest(centre, reach, power.len() as int);
    if low <= high {
        let part = power.subrange(low, high + 1);
        peak::lemma_there_is_a_last_peak(part);
        let at = peak::last_peak(part);
        let keep = |k: int| k > 0 && centre - reach <= k <= centre + reach;
        let bin = low + at;
        assert(part[at] == power[bin]);
        assert forall|k: int| 0 <= k < power.len() && #[trigger] keep(k) implies power[k].total_rank()
            <= power[bin].total_rank() && (k > bin ==> power[k].total_rank()
            < power[bin].total_rank()) by {
            assert(low <= k <= high);
            assert(part[k - low] == power[k]);
        }
    }
}

/// Where the parts of a measurement stand in a spectrum.
pub struct Findings {
    /// The bin of the fundamental.
    pub bin: int,
    /// The bins of its lobe.
    pub own: Seq<int>,
    /// All other bins but DC.
    pub rest: Seq<int>,
    /// The bins of the harmonics, one for each.
    pub overtones: Seq<int>,
    /// The bins of their lobes.
    pub lobes: Seq<Seq<int>>,
    /// The bins that are in nobody's lobe.
    pub quiet: Seq<int>,
}

/// The power at some bins.
pub open spec fn power_at<C: Fn(Calc) -> F32>(m: Arith<C>, power: Seq<F32>, places: Seq<int>) -> F32 {
    arith::total(m, choice::at_places(power, places))
}

/// Whether a bin is in the lobe around one of some centres.
pub open spec fn in_a_lobe(centres: Seq<int>, lobe: int, k: int) -> bool {
    exists|i: int|
        0 <= i < centres.len() && #[trigger] centres[i] - lobe <= k <= centres[i] + lobe
}

/// The level of a power, never under the floor.
pub open spec fn level_of<C: Fn(Calc) -> F32>(m: Arith<C>, power: F32) -> F32 {
    if num(ZERO).less(power) {
        m.times(num(TEN), m.log10(power)).spec_max(num(DISTORTION_FLOOR_DB))
    } else {
        num(DISTORTION_FLOOR_DB)
    }
}

/// The level of an amplitude, never under the floor.
pub open spec fn amplitude_level<C: Fn(Calc) -> F32>(m: Arith<C>, amplitude: F32) -> F32 {
    if num(ZERO).less(amplitude) {
        m.times(num(TWENTY), m.log10(amplitude)).spec_max(num(DISTORTION_FLOOR_DB))
    } else {
        num(DISTORTION_FLOOR_DB)
    }
}

/// The frequency at which the power at some bins is balanced; that of `peak` where they
/// hold none.
pub open spec fn balance<C: Fn(Calc) -> F32>(
    m: Arith<C>,
    power: Seq<F32>,
    places: Seq<int>,
    peak: int,
    spacing: F32,
) -> F32 {
    let turning = Seq::new(
        places.len(),
        |i: int| m.times(power[places[i]], m.count(places[i] as usize)),
    );
    let weight = power_at(m, power, places);
    let bins = if num(ZERO).less(weight) {
        m.over(arith::total(m, turning), weight)
    } else {
        m.count(peak as usize)
    };
    m.times(bins, spacing)
}

/// Whether `bin` is the loudest but DC of those within `reach` of a frequency.
pub open spec fn is_loudest_near<C: Fn(Calc) -> F32>(
    m: Arith<C>,
    power: Seq<F32>,
    spacing: F32,
    hz: F32,
    reach: int,
    bin: int,
) -> bool {
    let place = ieee::saturated(m.over(hz, spacing).round_int(), usize::MAX as int);
    choice::is_greatest(power, |k: int| k > 0 && place - reach <= k <= place + reach, bin)
}

/// Whether `own` are the bins around a peak, on both sides of it and DC never among
/// them.
pub open spec fn is_lobe(power: Seq<F32>, bin: int, lobe: int, own: Seq<int>) -> bool {
    choice::is_choice(
        own,
        power.len() as int,
        |k: int| k > 0 && bin - lobe <= k <= bin + lobe,
    )
}

/// Whether a harmonic of a tone stands at a bin: that is the loudest near the multiple
/// of the tone's frequency, and level, frequency and share are those of the bins around
/// it.
pub open spec fn stands_at<C: Fn(Calc) -> F32>(
    m: Arith<C>,
    tone: Tone,
    first_hz: F32,
    first_power: F32,
    harmonic: Harmonic,
    bin: int,
    own: Seq<int>,
) -> bool {
    let power = power_at(m, tone.power, own);
    let ratio = m.root(m.over(power, first_power));
    let hz = m.times(first_hz, m.count(harmonic.order as usize));
    &&& is_loudest_near(m, tone.power, tone.spacing, hz, tone.config.search_bins as int, bin)
    &&& is_lobe(tone.power, bin, tone.config.lobe_bins as int, own)
    &&& harmonic.hz == balance(m, tone.power, own, bin, tone.spacing)
    &&& harmonic.level_db == level_of(m, power)
    &&& harmonic.relative_db == amplitude_level(m, ratio)
    &&& harmonic.percent == m.times(ratio, num(HUNDRED))
}

/// The frequency of a tone is where the power of its lobe is balanced.
proof fn lemma_centroid_is_the_balance<C: Fn(Calc) -> F32>(
    m: Arith<C>,
    power: Seq<F32>,
    bin: int,
    lobe: int,
    spacing: F32,
) -> (own: Seq<int>)
    requires
        0 < bin < power.len(),
        0 <= lobe,
    ensures
        is_lobe(power, bin, lobe, own),
        lobe_total(m, power, bin, lobe) == power_at(m, power, own),
        centroid(m, power, bin, lobe, spacing) == balance(m, power, own, bin, spacing),
{
    let own = lemma_lobe_is_a_choice(power, bin, lobe);
    let bins = lobe_of(power, bin, lobe);
    let low = lobe_start(bin, lobe);
    assert forall|i: int| 0 <= i < own.len() implies #[trigger] own[i] == low + i by {
        lemma_row_places(own, power.len() as int, bin, lobe, i);
    }
    assert(moments(m, bins, low) =~= Seq::new(
        own.len(),
        |i: int| m.times(power[own[i]], m.count(own[i] as usize)),
    ));
    own
}

/// Each harmonic that was found stands at a bin; the power of all is the sum of theirs,
/// and what is claimed is what is in a lobe of theirs or of the tone.
proof fn lemma_searched_bins<C: Fn(Calc) -> F32>(tone: Tone, m: Arith<C>, orders: nat) -> (found: (
    Seq<int>,
    Seq<Seq<int>>,
))
    requires
        tone.valid(),
        orders < u32::MAX,
    ensures
        ({
            let search = tone.searched(m, orders);
            let (bins, lobes) = found;
            &&& bins.len() == search.harmonics.len()
            &&& lobes.len() == search.harmonics.len()
            &&& forall|i: int|
                0 <= i < bins.len() ==> stands_at(
                    m,
                    tone,
                    tone.fundamental_hz(m),
                    tone.fundamental_power(m),
                    #[trigger] search.harmonics[i],
                    bins[i],
                    lobes[i],
                )
            &&& search.power == arith::total(
                m,
                Seq::new(lobes.len(), |i: int| power_at(m, tone.power, lobes[i])),
            )
            &&& search.claimed.len() == tone.power.len()
            &&& forall|k: int|
                0 <= k < tone.power.len() ==> #[trigger] search.claimed[k] == in_a_lobe(
                    seq![tone.bin] + bins,
                    tone.config.lobe_bins as int,
                    k,
                )
        }),
    decreases orders,
{
    let power = tone.power;
    let lobe = tone.config.lobe_bins as int;
    let reach = tone.config.search_bins as int;
    let search = tone.searched(m, orders);
    if orders == 0 {
        let bins = Seq::<int>::empty();
        let centres = seq![tone.bin] + bins;
        assert forall|k: int| 0 <= k < power.len() implies #[trigger] search.claimed[k]
            == in_a_lobe(centres, lobe, k) by {
            assert(centres[0] == tone.bin);
        }
        let lobes = Seq::<Seq<int>>::empty();
        assert(Seq::new(lobes.len(), |i: int| power_at(m, power, lobes[i])) =~= Seq::empty());
        (bins, lobes)
    } else {
        let (bins, lobes) = lemma_searched_bins(tone, m, (orders - 1) as nat);
        let before = tone.searched(m, (orders - 1) as nat);
        let order = (orders + 1) as u32;
        if tone.beyond(m, order) || tone.harmonic_bin(m, order) is None {
            (bins, lobes)
        } else {
            let bin = tone.harmonic_bin(m, order)->0;
            let place = ieee::saturated(
                m.over(tone.expected(m, order), tone.spacing).round_int(),
                usize::MAX as int,
            );
            ieee::lemma_round_not_negative(m.over(tone.expected(m, order), tone.spacing));
            lemma_near_is_the_loudest(power, place, reach);
            let own = lemma_centroid_is_the_balance(m, power, bin, lobe, tone.spacing);
            let more = bins.push(bin);
            let more_lobes = lobes.push(own);
            let centres = seq![tone.bin] + bins;
            let more_centres = seq![tone.bin] + more;
            assert(more_centres =~= centres.push(bin));
            assert forall|k: int| 0 <= k < power.len() implies #[trigger] search.claimed[k]
                == in_a_lobe(more_centres, lobe, k) by {
                assert(search.claimed[k] == (before.claimed[k] || (bin - lobe <= k <= bin + lobe)));
                if in_a_lobe(centres, lobe, k) {
                    let i = choose|i: int|
                        0 <= i < centres.len() && #[trigger] centres[i] - lobe <= k <= centres[i]
                            + lobe;
                    assert(more_centres[i] == centres[i]);
                }
                if bin - lobe <= k <= bin + lobe {
                    assert(more_centres[centres.len() as int] == bin);
                }
                if in_a_lobe(more_centres, lobe, k) {
                    let i = choose|i: int|
                        0 <= i < more_centres.len() && #[trigger] more_centres[i] - lobe <= k
                            <= more_centres[i] + lobe;
                    if i < centres.len() {
                        assert(more_centres[i] == centres[i]);
                    }
                }
            }
            assert forall|i: int| 0 <= i < more.len() implies stands_at(
                m,
                tone,
                tone.fundamental_hz(m),
                tone.fundamental_power(m),
                #[trigger] search.harmonics[i],
                more[i],
                more_lobes[i],
            ) by {
                if i < bins.len() {
                    assert(search.harmonics[i] == before.harmonics[i]);
                }
            }
            let powers = Seq::new(more_lobes.len(), |i: int| power_at(m, power, more_lobes[i]));
            assert(powers.drop_last() =~= Seq::new(
                lobes.len(),
                |i: int| power_at(m, power, lobes[i]),
            ));
            (more, more_lobes)
        }
    }
}

/// What is measured of a tone, by the bins that go into it.
///
/// The fundamental is the loudest bin but DC, or the loudest near a frequency that is
/// known. Its power is that of the bins within the lobe's reach on both sides; the
/// residual is that of every other bin but DC, below the fundamental as above it, each
/// counted once. A harmonic is the loudest bin near its multiple, with the power of its
/// own lobe. The noise floor is the median of the bins in nobody's lobe.
pub proof fn lemma_what_distortion_counts<C: Fn(Calc) -> F32>(
    m: Arith<C>,
    power: Seq<F32>,
    spacing: F32,
    fundamental_hz: Option<F32>,
    config: DistortionConfig,
) -> (parts: Findings)
    ensures
        analysed(m, power, spacing, fundamental_hz, config) matches Some(d) ==> {
            let n = power.len() as int;
            let lobe = config.lobe_bins as int;
            let bin = parts.bin;
            let (inside, outside) = (
                power_at(m, power, parts.own),
                power_at(m, power, parts.rest),
            );
            let overtones = arith::total(
                m,
                Seq::new(parts.lobes.len(), |i: int| power_at(m, power, parts.lobes[i])),
            );
            &&& match fundamental_hz {
                Some(hz) => is_loudest_near(m, power, spacing, hz, config.search_bins as int, bin),
                None => choice::is_greatest(power, |k: int| k > 0, bin),
            }
            &&& is_lobe(power, bin, lobe, parts.own)
            &&& choice::is_choice(
                parts.rest,
                n,
                |k: int| k > 0 && (k < bin - lobe || k > bin + lobe),
            )
            &&& parts.overtones.len() == d.harmonics.len()
            &&& parts.lobes.len() == d.harmonics.len()
            &&& forall|i: int|
                0 <= i < d.harmonics.len() ==> stands_at(
                    m,
                    Tone { power, spacing, config, bin },
                    d.fundamental_hz,
                    inside,
                    #[trigger] d.harmonics[i],
                    parts.overtones[i],
                    parts.lobes[i],
                )
            &&& choice::is_choice(
                parts.quiet,
                n,
                |k: int| k > 0 && !in_a_lobe(seq![bin] + parts.overtones, lobe, k),
            )
            &&& d.fundamental_hz == balance(m, power, parts.own, bin, spacing)
            &&& d.fundamental_db == level_of(m, inside)
            &&& d.thd_percent == m.times(m.root(m.over(overtones, inside)), num(HUNDRED))
            &&& d.thd_db == amplitude_level(m, m.root(m.over(overtones, inside)))
            &&& d.thd_n_percent == m.times(m.root(m.over(outside, inside)), num(HUNDRED))
            &&& d.thd_n_db == amplitude_level(m, m.root(m.over(outside, inside)))
            &&& d.noise_floor_db == level_of(m, median(choice::at_places(power, parts.quiet)))
        },
{
    if analysed(m, power, spacing, fundamental_hz, config) is None {
        Findings {
            bin: 0,
            own: Seq::empty(),
            rest: Seq::empty(),
            overtones: Seq::empty(),
            lobes: Seq::empty(),
            quiet: Seq::empty(),
        }
    } else {
        let n = power.len() as int;
        let reach = config.search_bins as int;
        let lobe = config.lobe_bins as int;
        let bin = fundamental_bin(m, power, spacing, fundamental_hz, config)->0;
        match fundamental_hz {
            Some(hz) => {
                ieee::lemma_round_not_negative(m.over(hz, spacing));
                lemma_near_is_the_loudest(
                    power,
                    ieee::saturated(m.over(hz, spacing).round_int(), usize::MAX as int),
                    reach,
                );
            },
            None => {
                let tail = power.skip(1);
                peak::lemma_there_is_a_last_peak(tail);
                let at = peak::last_peak(tail);
                let keep = |k: int| k > 0;
                assert(tail[at] == power[bin]);
                assert forall|k: int| 0 <= k < n && #[trigger] keep(k) implies power[k].total_rank()
                    <= power[bin].total_rank() && (k > bin ==> power[k].total_rank()
                    < power[bin].total_rank()) by {
                    assert(tail[k - 1] == power[k]);
                }
            },
        }
        let tone = Tone { power, spacing, config, bin };
        let own = lemma_centroid_is_the_balance(m, power, bin, lobe, spacing);
        let rest = lemma_picked_is_a_choice(power, tone.residual());
        choice::lemma_same_choice(
            rest,
            n,
            |k: int| tone.residual()[k],
            |k: int| k > 0 && (k < bin - lobe || k > bin + lobe),
        );
        let (overtones, lobes) = lemma_searched_bins(tone, m, tone.orders());
        let search = tone.searched(m, tone.orders());
        let unclaimed = Seq::new(power.len(), |i: int| i > 0 && !search.claimed[i]);
        let quiet = lemma_picked_is_a_choice(power, unclaimed);
        choice::lemma_same_choice(
            quiet,
            n,
            |k: int| unclaimed[k],
            |k: int| k > 0 && !in_a_lobe(seq![bin] + overtones, lobe, k),
        );
        Findings { bin, own, rest, overtones, lobes, quiet }
    }
}

/// The places of a lobe follow one another from its lowest.
proof fn lemma_row_places(own: Seq<int>, n: int, centre: int, lobe: int, i: int)
    requires
        0 < centre < n,
        0 <= lobe,
        choice::is_choice(own, n, |k: int| k > 0 && centre - lobe <= k <= centre + lobe),
        0 <= i < own.len(),
    ensures
        own[i] == lobe_start(centre, lobe) + i,
{
    let low = lobe_start(centre, lobe);
    let high = highest(centre, lobe, n) + 1;
    let row = Seq::new((high - low) as nat, |i: int| low + i);
    let keep = |k: int| k > 0 && centre - lobe <= k <= centre + lobe;
    assert forall|k: int| 0 <= k < n && #[trigger] keep(k) implies row.contains(k) by {
        assert(row[k - low] == k);
    }
    assert(choice::is_choice(row, n, keep));
    choice::lemma_choice_is_one(own, row, n, keep);
}

/// The middle number has as many beside it on either side as there are: put in
/// ascending order, the numbers have it at half their count.
pub proof fn lemma_median_is_in_the_middle(numbers: Seq<F32>) -> (sorted: Seq<F32>)
    requires
        numbers.len() > 0,
    ensures
        sorted.to_multiset() == numbers.to_multiset(),
        sorted.len() == numbers.len(),
        forall|i: int, j: int|
            0 <= i < j < sorted.len() ==> (#[trigger] sorted[i]).total_rank() <= (
            #[trigger] sorted[j]).total_rank(),
        median(numbers) == sorted[numbers.len() as int / 2],
{
    let sorted = numbers.sort_by(order::ascending());
    order::lemma_ascending_is_total();
    numbers.lemma_sort_by_ensures(order::ascending());
    vstd::seq_lib::to_multiset_len(numbers);
    vstd::seq_lib::to_multiset_len(sorted);
    assert forall|i: int, j: int| 0 <= i < j < sorted.len() implies (
    #[trigger] sorted[i]).total_rank() <= (#[trigger] sorted[j]).total_rank() by {
        assert((order::ascending())(sorted[i], sorted[j]));
    }
    sorted
}

/// Every order up to the highest looked for is measured, unless it lies above the end
/// of the spectrum or no bin is within reach of it.
pub proof fn lemma_every_order_in_reach_is_measured<C: Fn(Calc) -> F32>(
    tone: Tone,
    m: Arith<C>,
    order: u32,
    bin: int,
)
    requires
        tone.valid(),
        2 <= order <= tone.config.max_order,
        !m.times(m.count((tone.power.len() - 1) as usize), tone.spacing).less(
            m.times(tone.measured(m).fundamental_hz, m.count(order as usize)),
        ),
        0 < bin < tone.power.len(),
        ({
            let place = ieee::saturated(
                m.over(
                    m.times(tone.measured(m).fundamental_hz, m.count(order as usize)),
                    tone.spacing,
                ).round_int(),
                usize::MAX as int,
            );
            place - tone.config.search_bins <= bin <= place + tone.config.search_bins
        }),
    ensures
        exists|i: int|
            0 <= i < tone.measured(m).harmonics.len() && (
            #[trigger] tone.measured(m).harmonics[i]).order == order,
{
    let place = ieee::saturated(
        m.over(tone.expected(m, order), tone.spacing).round_int(),
        usize::MAX as int,
    );
    ieee::lemma_round_not_negative(m.over(tone.expected(m, order), tone.spacing));
    lemma_near_is_the_loudest(tone.power, place, tone.config.search_bins as int);
    assert(bin + 0 == bin);
    lemma_order_is_kept(tone, m, order, tone.orders());
    let harmonics = tone.searched(m, tone.orders()).harmonics;
    let i = choose|i: int| 0 <= i < harmonics.len() && (#[trigger] harmonics[i]).order == order;
    assert(tone.measured(m).harmonics[i].order == order);
}

proof fn lemma_order_is_kept<C: Fn(Calc) -> F32>(tone: Tone, m: Arith<C>, order: u32, orders: nat)
    requires
        2 <= order <= orders + 1,
        orders < u32::MAX,
        !tone.beyond(m, order),
        tone.harmonic_bin(m, order) is Some,
    ensures
        exists|i: int|
            0 <= i < tone.searched(m, orders).harmonics.len() && (
            #[trigger] tone.searched(m, orders).harmonics[i]).order == order,
    decreases orders,
{
    let harmonics = tone.searched(m, orders).harmonics;
    let before = tone.searched(m, (orders - 1) as nat).harmonics;
    if order == orders + 1 {
        assert(harmonics[before.len() as int].order == order);
    } else {
        lemma_order_is_kept(tone, m, order, (orders - 1) as nat);
        let i = choose|i: int| 0 <= i < before.len() && (#[trigger] before[i]).order == order;
        assert(harmonics[i] == before[i]);
    }
}

/// There is a tone exactly where the spectrum has four bins or more, its spacing is not
/// zero or below, some bin but DC lies within reach of the frequency that is given, if
/// one is, and the bins around the loudest of those hold power.
pub proof fn lemma_when_there_is_a_tone<C: Fn(Calc) -> F32>(
    m: Arith<C>,
    power: Seq<F32>,
    spacing: F32,
    fundamental_hz: Option<F32>,
    config: DistortionConfig,
    k: int,
) -> (found: (int, Seq<int>))
    ensures
        power.len() < 4 || spacing.at_most(num(ZERO)) ==> analysed(
            m,
            power,
            spacing,
            fundamental_hz,
            config,
        ) is None,
        fundamental_hz matches Some(hz) ==> (forall|j: int|
            0 < j < power.len() ==> !is_near(m, spacing, hz, config.search_bins as int, j))
            ==> analysed(m, power, spacing, fundamental_hz, config) is None,
        power.len() >= 4 && !spacing.at_most(num(ZERO)) && 0 < k < power.len() && (
        fundamental_hz matches Some(hz) ==> is_near(
            m,
            spacing,
            hz,
            config.search_bins as int,
            k,
        )) ==> {
            let (bin, own) = found;
            &&& fundamental_hz is None ==> choice::is_greatest(power, |j: int| j > 0, bin)
            &&& fundamental_hz matches Some(hz) ==> is_loudest_near(
                m,
                power,
                spacing,
                hz,
                config.search_bins as int,
                bin,
            )
            &&& is_lobe(power, bin, config.lobe_bins as int, own)
            &&& analysed(m, power, spacing, fundamental_hz, config) is Some <==> !power_at(
                m,
                power,
                own,
            ).at_most(num(ZERO))
        },
{
    let reach = config.search_bins as int;
    if power.len() < 4 || spacing.at_most(num(ZERO)) {
        (0, Seq::empty())
    } else {
        match fundamental_hz {
            Some(hz) => {
                let place = ieee::saturated(m.over(hz, spacing).round_int(), usize::MAX as int);
                ieee::lemma_round_not_negative(m.over(hz, spacing));
                lemma_near_is_the_loudest(power, place, reach);
                if near(power, place, reach) is Some {
                    let bin = near(power, place, reach)->0;
                    assert(is_near(m, spacing, hz, reach, bin));
                } else if 0 < k < power.len() {
                    assert(!(place - reach <= k + 0 <= place + reach));
                }
            },
            None => {
                let tail = power.skip(1);
                peak::lemma_there_is_a_last_peak(tail);
                let bin = 1 + peak::last_peak(tail);
                let keep = |j: int| j > 0;
                assert(tail[bin - 1] == power[bin]);
                assert forall|j: int| 0 <= j < power.len() && #[trigger] keep(j) implies
                    power[j].total_rank() <= power[bin].total_rank() && (j > bin
                    ==> power[j].total_rank() < power[bin].total_rank()) by {
                    assert(tail[j - 1] == power[j]);
                }
            },
        }
        match fundamental_bin(m, power, spacing, fundamental_hz, config) {
            Some(bin) => {
                let own = lemma_centroid_is_the_balance(
                    m,
                    power,
                    bin,
                    config.lobe_bins as int,
                    spacing,
                );
                (bin, own)
            },
            None => (0, Seq::empty()),
        }
    }
}

/// Whether a bin lies within `reach` of a frequency.
pub open spec fn is_near<C: Fn(Calc) -> F32>(
    m: Arith<C>,
    spacing: F32,
    hz: F32,
    reach: int,
    bin: int,
) -> bool {
    let place = ieee::saturated(m.over(hz, spacing).round_int(), usize::MAX as int);
    place - reach <= bin <= place + reach
}

/// The highest order is the highest of those measured, and one where there is none.
pub proof fn lemma_highest_order(distortion: Distortion)
    requires
        forall|i: int, j: int|
            0 <= i < j < distortion.harmonics@.len() ==> (#[trigger] distortion.harmonics@[i]).order
                < (#[trigger] distortion.harmonics@[j]).order,
    ensures
        distortion.harmonics@.len() == 0 ==> distortion.spec_highest_order() == 1,
        forall|i: int|
            0 <= i < distortion.harmonics@.len() ==> (
            #[trigger] distortion.harmonics@[i]).order <= distortion.spec_highest_order(),
        distortion.harmonics@.len() > 0 ==> exists|i: int|
            0 <= i < distortion.harmonics@.len() && (#[trigger] distortion.harmonics@[i]).order
                == distortion.spec_highest_order(),
{
    let all = distortion.harmonics@;
    if all.len() > 0 {
        assert(all[all.len() - 1].order == distortion.spec_highest_order());
    }
}

/// The orders that the figure does not cover are those asked for whose multiple of the
/// fundamental lies above the frequency of the last bin.
pub proof fn lemma_orders_out_of_reach_are_counted<C: Fn(Calc) -> F32>(tone: Tone, m: Arith<C>)
    requires
        tone.valid(),
    ensures
        tone.measured(m).orders_above_nyquist == Set::new(
            |order: u32|
                2 <= order <= tone.config.max_order && m.times(
                    m.count((tone.power.len() - 1) as usize),
                    tone.spacing,
                ).less(m.times(tone.measured(m).fundamental_hz, m.count(order as usize))),
        ).len(),
{
    let orders = tone.orders();
    let counted = Set::new(|order: u32| 2 <= order <= orders + 1 && tone.beyond(m, order));
    let stated = Set::new(
        |order: u32|
            2 <= order <= tone.config.max_order && m.times(
                m.count((tone.power.len() - 1) as usize),
                tone.spacing,
            ).less(m.times(tone.measured(m).fundamental_hz, m.count(order as usize))),
    );
    lemma_orders_above_nyquist_are_counted(tone, m, orders);
    lemma_no_more_above_than_orders(tone, m, orders);
    assert(counted =~= stated);
}

proof fn lemma_no_more_above_than_orders<C: Fn(Calc) -> F32>(tone: Tone, m: Arith<C>, orders: nat)
    ensures
        tone.searched(m, orders).above <= orders,
    decreases orders,
{
    if orders > 0 {
        lemma_no_more_above_than_orders(tone, m, (orders - 1) as nat);
    }
}

} // verus!

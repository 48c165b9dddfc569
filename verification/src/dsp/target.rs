//! Target curves: the response a correction is aiming at.
//!
//! Flat is the wrong answer for a room: the ear expects the bass lift that a real
//! space produces. Targets are relative, so drawing one against a measurement needs
//! an offset, the one that makes the average difference over a chosen band zero.

use vstd::prelude::*;

use crate::arith;
use crate::arith::{Arith, Calc, Wide, WideArith};
use crate::choice;
use crate::ieee::{F32, F64};
use crate::numbers::{num, wide, ONE, TWO, ZERO};
use crate::points;
use crate::points::{tidy, LevelPoint};

verus! {

/// Where a tilt pivots, one kilohertz.
pub const REFERENCE_HZ: u32 = 0x447A_0000;

/// Band the alignment uses unless told otherwise, 200 Hz to 2 kHz.
pub const ALIGN_FROM_HZ: u32 = 0x4348_0000;

pub const ALIGN_TO_HZ: u32 = 0x44FA_0000;

/// The room target drawn from common practice: a lift of six decibels, half of it
/// reached at 105 Hz, and a tilt of half a decibel down per octave.
pub const ROOM_SHELF_DB: u32 = 0x40C0_0000;

pub const ROOM_TRANSITION_HZ: u32 = 0x42D2_0000;

pub const ROOM_TILT_DB: u32 = 0xBF00_0000;

/// The shape of a target.
#[derive(Debug, Clone, PartialEq)]
pub enum TargetShape {
    /// Flat at every frequency.
    Flat,
    /// A constant slope, zero at the reference frequency.
    Tilt {
        /// Decibels per octave. Negative slopes downward with frequency.
        db_per_octave: F32,
    },
    /// A bass shelf with an optional tilt above it.
    Room {
        /// Lift at the bottom of the band, in decibels.
        shelf_db: F32,
        /// Where the shelf reaches half its lift.
        transition_hz: F32,
        /// Slope applied across the whole range, zero at the reference frequency.
        db_per_octave: F32,
    },
    /// Points, sorted ascending and interpolated against the logarithm of frequency.
    Custom {
        /// Sorted by frequency, with unusable points removed.
        points: Vec<LevelPoint>,
    },
}

/// What a shape amounts to.
#[verifier::ext_equal]
pub enum ShapeModel {
    Flat,
    Tilt { db_per_octave: F32 },
    Room { shelf_db: F32, transition_hz: F32, db_per_octave: F32 },
    Custom { points: Seq<LevelPoint> },
}

impl View for TargetShape {
    type V = ShapeModel;

    open spec fn view(&self) -> ShapeModel {
        match self {
            TargetShape::Flat => ShapeModel::Flat,
            TargetShape::Tilt { db_per_octave } => ShapeModel::Tilt {
                db_per_octave: *db_per_octave,
            },
            TargetShape::Room { shelf_db, transition_hz, db_per_octave } => ShapeModel::Room {
                shelf_db: *shelf_db,
                transition_hz: *transition_hz,
                db_per_octave: *db_per_octave,
            },
            TargetShape::Custom { points } => ShapeModel::Custom { points: points@ },
        }
    }
}

/// A slope in decibels per octave, zero at the reference frequency.
#[verifier::allow_in_spec]
pub fn tilt<C: Fn(Calc) -> F32>(m: &Arith<C>, db_per_octave: F32, hz: F32) -> F32
    returns
        m.times(db_per_octave, m.log2(m.over(hz, num(REFERENCE_HZ)))),
{
    m.times(db_per_octave, m.log2(m.over(hz, num(REFERENCE_HZ))))
}

/// The lift of a shelf, half of it at the transition.
#[verifier::allow_in_spec]
pub fn shelf<C: Fn(Calc) -> F32>(m: &Arith<C>, shelf_db: F32, transition_hz: F32, hz: F32) -> F32
    returns
        (if num(ZERO).lt(transition_hz) {
            m.over(
                shelf_db,
                m.plus(num(ONE), m.power(m.over(hz, transition_hz), num(TWO))),
            )
        } else {
            num(ZERO)
        }),
{
    if num(ZERO).lt(transition_hz) {
        m.over(shelf_db, m.plus(num(ONE), m.power(m.over(hz, transition_hz), num(TWO))))
    } else {
        num(ZERO)
    }
}

/// Where the first point above a frequency stands, at `from` or after it; the number
/// of points where there is none.
pub open spec fn first_above(points: Seq<LevelPoint>, hz: F32, from: int) -> int
    decreases points.len() - from,
{
    if from >= points.len() || !points[from].hz.le(hz) {
        from
    } else {
        first_above(points, hz, from + 1)
    }
}

/// The level between two points, in proportion to the logarithm of frequency.
#[verifier::allow_in_spec]
pub fn blended<C: Fn(Calc) -> F32>(m: &Arith<C>, low: LevelPoint, high: LevelPoint, hz: F32) -> F32
    returns
        (if high.hz.le(low.hz) {
            low.db
        } else {
            m.plus(
                low.db,
                m.times(
                    m.over(m.ln(m.over(hz, low.hz)), m.ln(m.over(high.hz, low.hz))),
                    m.minus(high.db, low.db),
                ),
            )
        }),
{
    if high.hz.le(low.hz) {
        return low.db;
    }
    let t = m.over(m.ln(m.over(hz, low.hz)), m.ln(m.over(high.hz, low.hz)));
    m.plus(low.db, m.times(t, m.minus(high.db, low.db)))
}

/// The level that points give at a frequency. Outside their range the curve holds its
/// end value: inventing a continued slope there would be fabricating data.
pub open spec fn interpolated<C: Fn(Calc) -> F32>(m: Arith<C>, points: Seq<LevelPoint>, hz: F32) -> F32 {
    let at = first_above(points, hz, 0);
    if points.len() == 0 {
        num(ZERO)
    } else if points.len() == 1 || hz.le(points[0].hz) {
        points[0].db
    } else if points.last().hz.le(hz) || at == 0 || at == points.len() {
        points.last().db
    } else {
        blended(&m, points[at - 1], points[at], hz)
    }
}

fn interpolate<C: Fn(Calc) -> F32>(m: &Arith<C>, points: &[LevelPoint], hz: F32) -> (db: F32)
    ensures
        db == interpolated(*m, points@, hz),
{
    let n: usize = points.len();
    if n == 0 {
        return num(ZERO);
    }
    if n == 1 || hz.le(points[0].hz) {
        return points[0].db;
    }
    if points[n - 1].hz.le(hz) {
        return points[n - 1].db;
    }
    let mut at: usize = 0;
    while at < n && points[at].hz.le(hz)
        invariant
            n == points@.len(),
            at <= n,
            first_above(points@, hz, 0) == first_above(points@, hz, at as int),
        decreases n - at,
    {
        at = at + 1;
    }
    if at == 0 || at == n {
        return points[n - 1].db;
    }
    blended(m, points[at - 1], points[at], hz)
}

impl ShapeModel {
    /// Level in decibels at `hz`, before any offset.
    pub open spec fn level<C: Fn(Calc) -> F32>(self, m: Arith<C>, hz: F32) -> F32 {
        if !hz.finite() || hz.le(num(ZERO)) {
            num(ZERO)
        } else {
            match self {
                ShapeModel::Flat => num(ZERO),
                ShapeModel::Tilt { db_per_octave } => tilt(&m, db_per_octave, hz),
                ShapeModel::Room { shelf_db, transition_hz, db_per_octave } => m.plus(
                    shelf(&m, shelf_db, transition_hz, hz),
                    tilt(&m, db_per_octave, hz),
                ),
                ShapeModel::Custom { points } => interpolated(m, points, hz),
            }
        }
    }
}

impl Default for TargetShape {
    fn default() -> (shape: TargetShape)
        ensures
            shape@ == ShapeModel::Flat,
    {
        TargetShape::Flat
    }
}

impl TargetShape {
    /// A room target with defaults drawn from common practice.
    pub fn room() -> (shape: TargetShape)
        ensures
            shape@ == (ShapeModel::Room {
                shelf_db: num(ROOM_SHELF_DB),
                transition_hz: num(ROOM_TRANSITION_HZ),
                db_per_octave: num(ROOM_TILT_DB),
            }),
    {
        TargetShape::Room {
            shelf_db: num(ROOM_SHELF_DB),
            transition_hz: num(ROOM_TRANSITION_HZ),
            db_per_octave: num(ROOM_TILT_DB),
        }
    }

    /// Build a custom shape, sorting and dropping unusable points. A file listing a
    /// DC row, or arriving unsorted, still works.
    pub fn custom(points: Vec<LevelPoint>) -> (shape: TargetShape)
        ensures
            shape@ matches ShapeModel::Custom { points: sorted } && points::tidied(
                points@,
                sorted,
            ) && points::in_shape(sorted),
    {
        TargetShape::Custom { points: tidy(points.as_slice()) }
    }

    /// Level in decibels at `hz`, before any offset.
    pub fn db_at<C: Fn(Calc) -> F32>(&self, m: &Arith<C>, hz: F32) -> (db: F32)
        ensures
            db == self@.level(*m, hz),
    {
        if !hz.is_finite() || hz.le(num(ZERO)) {
            return num(ZERO);
        }
        match self {
            TargetShape::Flat => num(ZERO),
            TargetShape::Tilt { db_per_octave } => tilt(m, *db_per_octave, hz),
            TargetShape::Room { shelf_db, transition_hz, db_per_octave } => m.plus(
                shelf(m, *shelf_db, *transition_hz, hz),
                tilt(m, *db_per_octave, hz),
            ),
            TargetShape::Custom { points } => interpolate(m, points.as_slice(), hz),
        }
    }
}

/// A target curve: a shape plus the offset that puts it on a measurement.
#[derive(Debug, Clone, PartialEq)]
pub struct TargetCurve {
    shape: TargetShape,
    offset_db: F32,
}

/// What a target curve amounts to.
#[verifier::ext_equal]
pub struct TargetModel {
    pub shape: ShapeModel,
    pub offset_db: F32,
}

/// What an alignment has counted so far.
pub struct Alignment {
    pub sum: F64,
    pub count: u64,
}

/// Whether a measured point counts for the alignment: its frequency lies in the band,
/// ends included, and its level is a number.
#[verifier::allow_in_spec]
pub fn counts(hz: F32, measured: F32, from_hz: F32, to_hz: F32) -> bool
    returns
        from_hz.le(hz) && hz.le(to_hz) && measured.is_finite(),
{
    from_hz.le(hz) && hz.le(to_hz) && measured.is_finite()
}

impl TargetModel {
    /// Level in decibels at `hz`, including the offset.
    pub open spec fn level<C: Fn(Calc) -> F32>(self, m: Arith<C>, hz: F32) -> F32 {
        m.plus(self.shape.level(m, hz), self.offset_db)
    }

    /// What the first `n` points of a measurement add up to, above the shape.
    pub open spec fn alignment<C: Fn(Calc) -> F32, W: Fn(Wide) -> F64>(
        self,
        m: Arith<C>,
        w: WideArith<W>,
        frequencies: Seq<F32>,
        measured_db: Seq<F32>,
        from_hz: F32,
        to_hz: F32,
        n: nat,
    ) -> Alignment
        decreases n,
    {
        if n == 0 {
            Alignment { sum: wide(0), count: 0 }
        } else {
            let before = self.alignment(
                m,
                w,
                frequencies,
                measured_db,
                from_hz,
                to_hz,
                (n - 1) as nat,
            );
            let hz = frequencies[n - 1];
            let measured = measured_db[n - 1];
            if counts(hz, measured, from_hz, to_hz) {
                Alignment {
                    sum: w.plus(
                        before.sum,
                        w.widen(m.minus(measured, self.shape.level(m, hz))),
                    ),
                    count: (before.count + 1) as u64,
                }
            } else {
                before
            }
        }
    }

    /// The curve aligned to a measurement: its offset makes the mean difference over
    /// the band zero. A band with nothing usable in it leaves the offset alone.
    pub open spec fn aligned<C: Fn(Calc) -> F32, W: Fn(Wide) -> F64>(
        self,
        m: Arith<C>,
        w: WideArith<W>,
        frequencies: Seq<F32>,
        measured_db: Seq<F32>,
        from_hz: F32,
        to_hz: F32,
    ) -> TargetModel {
        let n = shorter(frequencies.len(), measured_db.len());
        let all = self.alignment(m, w, frequencies, measured_db, from_hz, to_hz, n);
        let offset = m.narrow(w.over(all.sum, w.count(all.count)));
        if all.count > 0 && offset.finite() {
            TargetModel { offset_db: offset, ..self }
        } else {
            self
        }
    }
}

/// The smaller of two lengths.
pub open spec fn shorter(a: nat, b: nat) -> nat {
    if a <= b {
        a
    } else {
        b
    }
}

impl View for TargetCurve {
    type V = TargetModel;

    closed spec fn view(&self) -> TargetModel {
        TargetModel { shape: self.shape@, offset_db: self.offset_db }
    }
}

impl Default for TargetCurve {
    fn default() -> (curve: TargetCurve)
        ensures
            curve@ == (TargetModel { shape: ShapeModel::Flat, offset_db: num(ZERO) }),
    {
        TargetCurve { shape: TargetShape::Flat, offset_db: num(ZERO) }
    }
}

impl TargetCurve {
    /// A target with no offset applied.
    pub fn new(shape: TargetShape) -> (curve: TargetCurve)
        ensures
            curve@ == (TargetModel { shape: shape@, offset_db: num(ZERO) }),
    {
        TargetCurve { shape, offset_db: num(ZERO) }
    }

    /// The shape being evaluated.
    pub fn shape(&self) -> (shape: &TargetShape)
        ensures
            shape@ == self@.shape,
    {
        &self.shape
    }

    /// The alignment offset currently applied.
    pub fn offset_db(&self) -> (db: F32)
        ensures
            db == self@.offset_db,
    {
        self.offset_db
    }

    /// Replace the shape, keeping the offset.
    pub fn set_shape(&mut self, shape: TargetShape)
        ensures
            final(self)@ == (TargetModel { shape: shape@, ..old(self)@ }),
    {
        self.shape = shape;
    }

    /// Set the offset by hand. One that is not finite is ignored.
    pub fn set_offset_db(&mut self, offset_db: F32)
        ensures
            final(self)@ == if offset_db.finite() {
                TargetModel { offset_db, ..old(self)@ }
            } else {
                old(self)@
            },
    {
        if offset_db.is_finite() {
            self.offset_db = offset_db;
        }
    }

    /// Level in decibels at `hz`, including the offset.
    pub fn db_at<C: Fn(Calc) -> F32>(&self, m: &Arith<C>, hz: F32) -> (db: F32)
        ensures
            db == self@.level(*m, hz),
    {
        m.plus(self.shape.db_at(m, hz), self.offset_db)
    }

    /// Evaluate across `frequencies`, as far as both reach.
    pub fn write_levels<C: Fn(Calc) -> F32>(
        &self,
        m: &Arith<C>,
        frequencies: &[F32],
        out: &mut [F32],
    )
        ensures
            final(out)@ == Seq::new(
                old(out)@.len(),
                |i: int|
                    if i < frequencies@.len() {
                        self@.level(*m, frequencies@[i])
                    } else {
                        old(out)@[i]
                    },
            ),
    {
        let n: usize = out.len();
        let ghost before = out@;
        let mut i: usize = 0;
        while i < n && i < frequencies.len()
            invariant
                i <= n,
                i <= frequencies@.len(),
                n == out@.len(),
                n == before.len(),
                forall|k: int|
                    0 <= k < i ==> #[trigger] out@[k] == self@.level(*m, frequencies@[k]),
                forall|k: int| i <= k < n ==> #[trigger] out@[k] == before[k],
            decreases n - i,
        {
            out[i] = self.db_at(m, frequencies[i]);
            i = i + 1;
        }
        assert(out@ =~= Seq::new(
            before.len(),
            |i: int|
                if i < frequencies@.len() {
                    self@.level(*m, frequencies@[i])
                } else {
                    before[i]
                },
        ));
    }

    /// Choose the offset that makes the mean difference over a band zero.
    ///
    /// Only frequencies inside the band with a finite measured level count. A band
    /// containing nothing usable leaves the offset alone rather than moving the curve
    /// somewhere arbitrary.
    pub fn align_to<C: Fn(Calc) -> F32, W: Fn(Wide) -> F64>(
        &mut self,
        m: &Arith<C>,
        w: &WideArith<W>,
        frequencies: &[F32],
        measured_db: &[F32],
        from_hz: F32,
        to_hz: F32,
    )
        ensures
            final(self)@ == old(self)@.aligned(
                *m,
                *w,
                frequencies@,
                measured_db@,
                from_hz,
                to_hz,
            ),
    {
        let mut sum = wide(0);
        let mut count: u64 = 0;
        let n: usize = if frequencies.len() <= measured_db.len() {
            frequencies.len()
        } else {
            measured_db.len()
        };
        let mut i: usize = 0;
        while i < n
            invariant
                i <= n,
                n <= frequencies@.len(),
                n <= measured_db@.len(),
                count <= i,
                *self == *old(self),
                self@.alignment(
                    *m,
                    *w,
                    frequencies@,
                    measured_db@,
                    from_hz,
                    to_hz,
                    i as nat,
                ) == (Alignment { sum, count }),
            decreases n - i,
        {
            let hz = frequencies[i];
            let measured = measured_db[i];
            if counts(hz, measured, from_hz, to_hz) {
                sum = w.plus(sum, w.widen(m.minus(measured, self.shape.db_at(m, hz))));
                count = count + 1;
            }
            i = i + 1;
        }
        if count > 0 {
            let offset = m.narrow(w.over(sum, w.count(count)));
            if offset.is_finite() {
                self.offset_db = offset;
            }
        }
    }

    /// The same, returning a new curve.
    pub fn aligned_to<C: Fn(Calc) -> F32, W: Fn(Wide) -> F64>(
        self,
        m: &Arith<C>,
        w: &WideArith<W>,
        frequencies: &[F32],
        measured_db: &[F32],
        from_hz: F32,
        to_hz: F32,
    ) -> (curve: TargetCurve)
        ensures
            curve@ == self@.aligned(*m, *w, frequencies@, measured_db@, from_hz, to_hz),
    {
        let mut curve = self;
        curve.align_to(m, w, frequencies, measured_db, from_hz, to_hz);
        curve
    }

    /// How far the measurement sits above the target, per frequency, as far as all
    /// three reach. A positive error is too much energy and wants a cut.
    pub fn write_error<C: Fn(Calc) -> F32>(
        &self,
        m: &Arith<C>,
        frequencies: &[F32],
        measured_db: &[F32],
        out: &mut [F32],
    )
        ensures
            final(out)@ == Seq::new(
                old(out)@.len(),
                |i: int|
                    if i < frequencies@.len() && i < measured_db@.len() {
                        m.minus(measured_db@[i], self@.level(*m, frequencies@[i]))
                    } else {
                        old(out)@[i]
                    },
            ),
    {
        let n: usize = out.len();
        let ghost before = out@;
        let mut i: usize = 0;
        while i < n && i < frequencies.len() && i < measured_db.len()
            invariant
                i <= n,
                i <= frequencies@.len(),
                i <= measured_db@.len(),
                n == out@.len(),
                n == before.len(),
                forall|k: int|
                    0 <= k < i ==> #[trigger] out@[k] == m.minus(
                        measured_db@[k],
                        self@.level(*m, frequencies@[k]),
                    ),
                forall|k: int| i <= k < n ==> #[trigger] out@[k] == before[k],
            decreases n - i,
        {
            out[i] = m.minus(measured_db[i], self.db_at(m, frequencies[i]));
            i = i + 1;
        }
        assert(out@ =~= Seq::new(
            before.len(),
            |i: int|
                if i < frequencies@.len() && i < measured_db@.len() {
                    m.minus(measured_db@[i], self@.level(*m, frequencies@[i]))
                } else {
                    before[i]
                },
        ));
    }
}

/// Aligning moves the offset and nothing else, and twice is as good as once.
pub proof fn lemma_aligning_again_changes_nothing<C: Fn(Calc) -> F32, W: Fn(Wide) -> F64>(
    target: TargetModel,
    m: Arith<C>,
    w: WideArith<W>,
    frequencies: Seq<F32>,
    measured_db: Seq<F32>,
    from_hz: F32,
    to_hz: F32,
)
    ensures
        ({
            let once = target.aligned(m, w, frequencies, measured_db, from_hz, to_hz);
            &&& once.shape == target.shape
            &&& once.aligned(m, w, frequencies, measured_db, from_hz, to_hz) == once
        }),
{
    let once = target.aligned(m, w, frequencies, measured_db, from_hz, to_hz);
    let n = shorter(frequencies.len(), measured_db.len());
    lemma_alignment_ignores_offset(
        target,
        once.offset_db,
        m,
        w,
        frequencies,
        measured_db,
        from_hz,
        to_hz,
        n,
    );
}

proof fn lemma_alignment_ignores_offset<C: Fn(Calc) -> F32, W: Fn(Wide) -> F64>(
    target: TargetModel,
    offset_db: F32,
    m: Arith<C>,
    w: WideArith<W>,
    frequencies: Seq<F32>,
    measured_db: Seq<F32>,
    from_hz: F32,
    to_hz: F32,
    n: nat,
)
    ensures
        (TargetModel { offset_db, ..target }).alignment(
            m,
            w,
            frequencies,
            measured_db,
            from_hz,
            to_hz,
            n,
        ) == target.alignment(m, w, frequencies, measured_db, from_hz, to_hz, n),
    decreases n,
{
    if n > 0 {
        lemma_alignment_ignores_offset(
            target,
            offset_db,
            m,
            w,
            frequencies,
            measured_db,
            from_hz,
            to_hz,
            (n - 1) as nat,
        );
    }
}

proof fn lemma_first_above_is(points: Seq<LevelPoint>, hz: F32, from: int, at: int)
    requires
        0 <= from <= at < points.len(),
        forall|i: int| from <= i < at ==> (#[trigger] points[i]).hz.at_most(hz),
        !points[at].hz.at_most(hz),
    ensures
        first_above(points, hz, from) == at,
    decreases at - from,
{
    if from < at {
        assert(points[from].hz.at_most(hz));
        lemma_first_above_is(points, hz, from + 1, at);
    }
}

/// Between two neighbouring points a custom target goes from the level of the one to
/// that of the other, as far as the logarithm of the frequency does, and the offset is
/// added.
pub proof fn lemma_custom_level_between_points<C: Fn(Calc) -> F32>(
    m: Arith<C>,
    target: TargetModel,
    points: Seq<LevelPoint>,
    hz: F32,
    k: int,
)
    requires
        target.shape == (ShapeModel::Custom { points }),
        points::in_shape(points),
        hz.finite(),
        0 <= k,
        k + 1 < points.len(),
        points[k].hz.at_most(hz),
        points[0].hz.less(hz),
        hz.less(points[k + 1].hz),
    ensures
        ({
            let (low, high) = (points[k], points[k + 1]);
            let way = m.over(m.ln(m.over(hz, low.hz)), m.ln(m.over(high.hz, low.hz)));
            target.level(m, hz) == m.plus(
                m.plus(low.db, m.times(way, m.minus(high.db, low.db))),
                target.offset_db,
            )
        }),
{
    let last = points.len() - 1;
    assert(points[k].usable() && points[k + 1].usable() && points[0].usable()
        && points[last].usable());
    assert forall|i: int| 0 <= i < k + 1 implies (#[trigger] points[i]).hz.at_most(hz) by {
        assert(points[i].usable());
        if i < k {
            assert(points[i].hz.at_most(points[k].hz));
        }
    }
    if k + 1 < last {
        assert(points[k + 1].hz.at_most(points[last].hz));
    }
    lemma_first_above_is(points, hz, 0, k + 1);
}

/// Outside its points a custom target holds the level of the point at that end.
pub proof fn lemma_custom_level_outside<C: Fn(Calc) -> F32>(
    m: Arith<C>,
    target: TargetModel,
    points: Seq<LevelPoint>,
    hz: F32,
)
    requires
        target.shape == (ShapeModel::Custom { points }),
        points.len() > 0,
        hz.finite(),
        num(ZERO).less(hz),
    ensures
        hz.at_most(points[0].hz) ==> target.level(m, hz) == m.plus(
            points[0].db,
            target.offset_db,
        ),
        points[0].hz.less(hz) && points.last().hz.at_most(hz) ==> target.level(m, hz) == m.plus(
            points.last().db,
            target.offset_db,
        ),
{
}

/// A slope is so many decibels for every doubling of the frequency, from none at the
/// reference. A room adds a shelf, which at its transition is the lift over one and the
/// square of one.
pub proof fn lemma_level_of_a_slope<C: Fn(Calc) -> F32>(
    m: Arith<C>,
    target: TargetModel,
    hz: F32,
)
    requires
        hz.finite(),
        num(ZERO).less(hz),
    ensures
        target.shape is Flat ==> target.level(m, hz) == m.plus(num(ZERO), target.offset_db),
        target.shape matches ShapeModel::Tilt { db_per_octave } ==> target.level(m, hz) == m.plus(
            m.times(db_per_octave, m.log2(m.over(hz, num(REFERENCE_HZ)))),
            target.offset_db,
        ),
        target.shape matches ShapeModel::Room { shelf_db, transition_hz, db_per_octave }
            ==> num(ZERO).less(transition_hz) ==> target.level(m, hz) == m.plus(
            m.plus(
                m.over(
                    shelf_db,
                    m.plus(num(ONE), m.power(m.over(hz, transition_hz), num(TWO))),
                ),
                m.times(db_per_octave, m.log2(m.over(hz, num(REFERENCE_HZ)))),
            ),
            target.offset_db,
        ),
{
}

/// Aligning sets the offset to the mean distance of the measurement above the shape,
/// taken over every measured point inside the band, ends included, and over no other.
pub proof fn lemma_offset_is_the_mean_distance<C: Fn(Calc) -> F32, W: Fn(Wide) -> F64>(
    target: TargetModel,
    m: Arith<C>,
    w: WideArith<W>,
    frequencies: Seq<F32>,
    measured_db: Seq<F32>,
    from_hz: F32,
    to_hz: F32,
) -> (places: Seq<int>)
    requires
        frequencies.len() <= u64::MAX,
    ensures
        ({
            let n = if frequencies.len() <= measured_db.len() {
                frequencies.len()
            } else {
                measured_db.len()
            };
            let aligned = target.aligned(m, w, frequencies, measured_db, from_hz, to_hz);
            let mean = m.narrow(
                w.over(
                    arith::wide_total(
                        w,
                        distances(target, m, w, frequencies, measured_db, places),
                    ),
                    w.count(places.len() as u64),
                ),
            );
            &&& choice::is_choice(
                places,
                n as int,
                |k: int|
                    from_hz.at_most(frequencies[k]) && frequencies[k].at_most(to_hz)
                        && measured_db[k].finite(),
            )
            &&& aligned.shape == target.shape
            &&& aligned.offset_db == if places.len() > 0 && mean.finite() {
                mean
            } else {
                target.offset_db
            }
        }),
{
    lemma_alignment_of_places(
        target,
        m,
        w,
        frequencies,
        measured_db,
        from_hz,
        to_hz,
        shorter(frequencies.len(), measured_db.len()),
    )
}

/// How far a measurement lies above a shape, at some of its points.
pub open spec fn distances<C: Fn(Calc) -> F32, W: Fn(Wide) -> F64>(
    target: TargetModel,
    m: Arith<C>,
    w: WideArith<W>,
    frequencies: Seq<F32>,
    measured_db: Seq<F32>,
    places: Seq<int>,
) -> Seq<F64> {
    Seq::new(
        places.len(),
        |i: int|
            w.widen(
                m.minus(measured_db[places[i]], target.shape.level(m, frequencies[places[i]])),
            ),
    )
}

proof fn lemma_alignment_of_places<C: Fn(Calc) -> F32, W: Fn(Wide) -> F64>(
    target: TargetModel,
    m: Arith<C>,
    w: WideArith<W>,
    frequencies: Seq<F32>,
    measured_db: Seq<F32>,
    from_hz: F32,
    to_hz: F32,
    n: nat,
) -> (places: Seq<int>)
    requires
        n <= u64::MAX,
    ensures
        choice::is_choice(
            places,
            n as int,
            |k: int|
                from_hz.at_most(frequencies[k]) && frequencies[k].at_most(to_hz)
                    && measured_db[k].finite(),
        ),
        places.len() <= n,
        target.alignment(m, w, frequencies, measured_db, from_hz, to_hz, n) == (Alignment {
            sum: arith::wide_total(w, distances(target, m, w, frequencies, measured_db, places)),
            count: places.len() as u64,
        }),
    decreases n,
{
    let keep = |k: int|
        from_hz.at_most(frequencies[k]) && frequencies[k].at_most(to_hz)
            && measured_db[k].finite();
    if n == 0 {
        let places = Seq::<int>::empty();
        assert(distances(target, m, w, frequencies, measured_db, places) =~= Seq::empty());
        places
    } else {
        let before = lemma_alignment_of_places(
            target,
            m,
            w,
            frequencies,
            measured_db,
            from_hz,
            to_hz,
            (n - 1) as nat,
        );
        choice::lemma_choice_goes_on(before, n - 1, keep);
        if keep(n - 1) {
            let places = before.push(n - 1);
            assert(distances(target, m, w, frequencies, measured_db, places).drop_last()
                =~= distances(target, m, w, frequencies, measured_db, before));
            places
        } else {
            before
        }
    }
}

} // verus!

//! Frequency response correction curves.
//!
//! A measurement microphone ships with a calibration file: a list of frequencies and
//! the decibels by which that capsule deviates from flat. Interpolation is linear in
//! decibels against the logarithm of frequency, because the points are sparse and
//! roughly evenly spaced per octave.

use vstd::prelude::*;
use vstd::string::StringExecFns;

use crate::arith::{Arith, Calc};
use crate::ieee::F32;
use crate::numbers::{num, ZERO};
use crate::order;
use crate::points;
use crate::points::{tidy, LevelPoint};
use crate::text;
use crate::text::decimal_text;

verus! {

/// The least distance between two frequencies that are told apart.
pub const LEAST_DISTANCE: u32 = 0x3400_0000;

/// Whether a point repeats the frequency of the one before.
#[verifier::allow_in_spec]
pub fn repeats<C: Fn(Calc) -> F32>(m: &Arith<C>, point: LevelPoint, before: LevelPoint) -> bool
    returns
        m.minus(point.hz, before.hz).abs().lt(num(LEAST_DISTANCE)),
{
    m.minus(point.hz, before.hz).abs().lt(num(LEAST_DISTANCE))
}

/// Points without those that repeat the frequency of the last one kept.
pub open spec fn distinct<C: Fn(Calc) -> F32>(m: Arith<C>, sorted: Seq<LevelPoint>) -> Seq<
    LevelPoint,
>
    decreases sorted.len(),
{
    if sorted.len() == 0 {
        Seq::empty()
    } else {
        let before = distinct(m, sorted.drop_last());
        if before.len() > 0 && repeats(&m, sorted.last(), before.last()) {
            before
        } else {
            before.push(sorted.last())
        }
    }
}

proof fn lemma_distinct_stays_in_shape<C: Fn(Calc) -> F32>(m: Arith<C>, sorted: Seq<LevelPoint>)
    requires
        points::in_shape(sorted),
    ensures
        points::in_shape(distinct(m, sorted)),
        sorted.len() > 0 ==> forall|i: int|
            0 <= i < distinct(m, sorted).len() ==> (#[trigger] distinct(m, sorted)[i]).hz.at_most(
                sorted.last().hz,
            ),
    decreases sorted.len(),
{
    if sorted.len() > 0 {
        let rest = sorted.drop_last();
        let before = distinct(m, rest);
        assert(points::in_shape(rest)) by {
            assert forall|i: int| 0 <= i < rest.len() implies (#[trigger] rest[i]).usable() by {
                assert(rest[i] == sorted[i]);
            }
            assert forall|i: int, j: int| 0 <= i < j < rest.len() implies (
            #[trigger] rest[i]).hz.at_most((#[trigger] rest[j]).hz) by {
                assert(rest[i] == sorted[i] && rest[j] == sorted[j]);
            }
        }
        lemma_distinct_stays_in_shape(m, rest);
        let last = sorted.len() - 1;
        assert(sorted[last].usable());
        assert forall|i: int| 0 <= i < before.len() implies (#[trigger] before[i]).hz.at_most(
            sorted.last().hz,
        ) by {
            assert(before[i].hz.at_most(rest.last().hz));
            assert(sorted[last - 1].hz.at_most(sorted[last].hz));
        }
        let here = distinct(m, sorted);
        assert forall|i: int| 0 <= i < here.len() implies (#[trigger] here[i]).usable() by {
            if i < before.len() {
                assert(here[i] == before[i]);
            }
        }
        assert forall|i: int, j: int| 0 <= i < j < here.len() implies (
        #[trigger] here[i]).hz.at_most((#[trigger] here[j]).hz) by {
            assert(here[i] == before[i]);
            if j < before.len() {
                assert(here[j] == before[j]);
            }
        }
        assert forall|i: int| 0 <= i < here.len() implies (#[trigger] here[i]).hz.at_most(
            sorted.last().hz,
        ) by {
            if i < before.len() {
                assert(here[i] == before[i]);
            }
        }
    }
}

/// Whether no point before `at` has its frequency.
pub open spec fn first_of_equals(points: Seq<LevelPoint>, at: int) -> bool {
    &&& 0 <= at < points.len()
    &&& forall|b: int| 0 <= b < at ==> (#[trigger] points[b]).hz != points[at].hz
}

/// What is kept of sorted points is the first at every frequency, and ascends strictly.
proof fn lemma_kept_are_first<C: Fn(Calc) -> F32>(m: Arith<C>, sorted: Seq<LevelPoint>)
    requires
        points::in_shape(sorted),
        forall|x: F32| x.finite() ==> (#[trigger] m.minus(x, x)).abs().lt(num(LEAST_DISTANCE)),
    ensures
        sorted.len() > 0 ==> distinct(m, sorted).len() > 0 && (distinct(m, sorted).last()
            == sorted.last() || repeats(&m, sorted.last(), distinct(m, sorted).last())),
        forall|i: int|
            0 <= i < distinct(m, sorted).len() ==> exists|k: int|
                first_of_equals(sorted, k) && #[trigger] sorted[k] == #[trigger] distinct(
                    m,
                    sorted,
                )[i],
        forall|i: int, j: int|
            0 <= i < j < distinct(m, sorted).len() ==> (#[trigger] distinct(m, sorted)[i]).hz.less(
                (#[trigger] distinct(m, sorted)[j]).hz,
            ),
    decreases sorted.len(),
{
    if sorted.len() > 0 {
        let rest = sorted.drop_last();
        let end = sorted.len() - 1;
        assert(points::in_shape(rest)) by {
            assert forall|i: int| 0 <= i < rest.len() implies (#[trigger] rest[i]).usable() by {
                assert(rest[i] == sorted[i]);
            }
            assert forall|i: int, j: int| 0 <= i < j < rest.len() implies (
            #[trigger] rest[i]).hz.at_most((#[trigger] rest[j]).hz) by {
                assert(rest[i] == sorted[i] && rest[j] == sorted[j]);
            }
        }
        lemma_kept_are_first(m, rest);
        let (before, here) = (distinct(m, rest), distinct(m, sorted));
        assert(here == before || here == before.push(sorted[end]));
        assert(sorted[end].usable());
        assert forall|i: int| 0 <= i < before.len() implies exists|k: int|
            first_of_equals(sorted, k) && k < end && #[trigger] sorted[k]
                == #[trigger] before[i] by {
            let k = choose|k: int|
                first_of_equals(rest, k) && #[trigger] rest[k] == #[trigger] before[i];
            assert(sorted[k] == rest[k]);
            assert forall|b: int| 0 <= b < k implies (#[trigger] sorted[b]).hz
                != sorted[k].hz by {
                assert(rest[b] == sorted[b]);
            }
        }
        if here != before {
            assert forall|b: int| 0 <= b < end implies (#[trigger] sorted[b]).hz
                != sorted[end].hz by {
                assert(sorted[b].usable() && sorted[end - 1].usable());
                assert(sorted[end - 1].hz.at_most(sorted[end].hz));
                if b < end - 1 {
                    assert(sorted[b].hz.at_most(sorted[end - 1].hz));
                }
                if sorted[b].hz == sorted[end].hz {
                    assert(sorted[end - 1].hz == sorted[end].hz);
                    assert(rest.last() == sorted[end - 1]);
                    assert(m.minus(sorted[end].hz, sorted[end].hz).abs().lt(num(LEAST_DISTANCE)));
                    assert(repeats(&m, sorted[end], before.last()));
                }
            }
            assert(first_of_equals(sorted, end));
        }
        assert forall|i: int| 0 <= i < here.len() implies exists|k: int|
            first_of_equals(sorted, k) && #[trigger] sorted[k] == #[trigger] here[i] by {
            if i < before.len() {
                assert(here[i] == before[i]);
                let k = choose|k: int|
                    first_of_equals(sorted, k) && k < end && #[trigger] sorted[k]
                        == #[trigger] before[i];
                assert(sorted[k] == here[i]);
            } else {
                assert(sorted[end] == here[i]);
            }
        }
        assert forall|i: int, j: int| 0 <= i < j < here.len() implies (
        #[trigger] here[i]).hz.less((#[trigger] here[j]).hz) by {
            assert(here[i] == before[i]);
            if j < before.len() {
                assert(here[j] == before[j]);
            } else {
                let k = choose|k: int|
                    first_of_equals(sorted, k) && k < end && #[trigger] sorted[k]
                        == #[trigger] before[i];
                assert(sorted[k].usable());
                assert(sorted[k].hz.at_most(sorted[end].hz));
                assert(sorted[k].hz != sorted[end].hz);
            }
        }
    }
}

/// The points of a curve ascend strictly, and of usable points at the same frequency
/// the first one given stays: wherever a frequency less itself is next to nothing.
pub proof fn lemma_first_of_equals_stays<C: Fn(Calc) -> F32>(
    m: Arith<C>,
    points: Seq<LevelPoint>,
    curve: Seq<LevelPoint>,
)
    requires
        made_of(m, points, curve),
        forall|x: F32| x.finite() ==> (#[trigger] m.minus(x, x)).abs().lt(num(LEAST_DISTANCE)),
    ensures
        forall|i: int, j: int|
            0 <= i < j < curve.len() ==> (#[trigger] curve[i]).hz.less((#[trigger] curve[j]).hz),
        forall|i: int|
            0 <= i < curve.len() ==> exists|at: int|
                first_of_equals(points::usable_points(points), at)
                    && #[trigger] points::usable_points(points)[at] == #[trigger] curve[i],
{
    let sorted = choose|sorted: Seq<LevelPoint>| #[trigger]
        points::tidied(points, sorted) && curve == distinct(m, sorted);
    let usable = points::usable_points(points);
    let keys = points::frequency_keys(usable);
    points::lemma_tidied_is_in_shape(points, sorted);
    lemma_kept_are_first(m, sorted);
    assert forall|i: int| 0 <= i < curve.len() implies exists|at: int|
        first_of_equals(usable, at) && #[trigger] usable[at] == #[trigger] curve[i] by {
        let k = choose|k: int|
            first_of_equals(sorted, k) && #[trigger] sorted[k] == #[trigger] distinct(
                m,
                sorted,
            )[i];
        let at = order::lemma_arranged_is_stable(usable, keys, sorted, k);
        assert forall|b: int| 0 <= b < at implies (#[trigger] usable[b]).hz != usable[at].hz by {
            if usable[b].hz == usable[at].hz {
                assert(keys[b] == keys[at]);
                let front = sorted.take(k);
                assert(front.contains(usable[b]));
                let j = choose|j: int| 0 <= j < front.len() && front[j] == usable[b];
                assert(sorted[j] == usable[b]);
            }
        }
        assert(first_of_equals(usable, at));
    }
}

proof fn lemma_each_is_kept<C: Fn(Calc) -> F32>(m: Arith<C>, sorted: Seq<LevelPoint>, k: int)
    requires
        0 <= k < sorted.len(),
    ensures
        exists|i: int|
            0 <= i < distinct(m, sorted).len() && (#[trigger] distinct(m, sorted)[i] == sorted[k]
                || repeats(&m, sorted[k], distinct(m, sorted)[i])),
    decreases sorted.len(),
{
    let rest = sorted.drop_last();
    let before = distinct(m, rest);
    let here = distinct(m, sorted);
    if k < rest.len() {
        lemma_each_is_kept(m, rest, k);
        let i = choose|i: int|
            0 <= i < before.len() && (#[trigger] before[i] == rest[k] || repeats(
                &m,
                rest[k],
                before[i],
            ));
        assert(here[i] == before[i]);
    } else {
        assert(here[here.len() - 1] == here.last());
    }
}

/// No usable frequency is lost: every usable point given is in the curve, or the curve
/// has one at the same frequency or next to it.
pub proof fn lemma_every_frequency_is_kept<C: Fn(Calc) -> F32>(
    m: Arith<C>,
    points: Seq<LevelPoint>,
    curve: Seq<LevelPoint>,
    at: int,
)
    requires
        made_of(m, points, curve),
        0 <= at < points::usable_points(points).len(),
    ensures
        exists|i: int|
            0 <= i < curve.len() && (#[trigger] curve[i] == points::usable_points(points)[at]
                || repeats(&m, points::usable_points(points)[at], curve[i])),
{
    let sorted = choose|sorted: Seq<LevelPoint>| #[trigger]
        points::tidied(points, sorted) && curve == distinct(m, sorted);
    let usable = points::usable_points(points);
    let place = order::lemma_arranged_has_all(usable, points::frequency_keys(usable), sorted, at);
    lemma_each_is_kept(m, sorted, place);
}

proof fn lemma_distinct_stay<C: Fn(Calc) -> F32>(m: Arith<C>, sorted: Seq<LevelPoint>)
    ensures
        distinct(m, distinct(m, sorted)) == distinct(m, sorted),
    decreases sorted.len(),
{
    if sorted.len() > 0 {
        let before = distinct(m, sorted.drop_last());
        lemma_distinct_stay(m, sorted.drop_last());
        if !(before.len() > 0 && repeats(&m, sorted.last(), before.last())) {
            assert(before.push(sorted.last()).drop_last() =~= before);
        }
    }
}

/// A curve made of a curve's own points is that curve.
pub proof fn lemma_rebuilt_curve_stays<C: Fn(Calc) -> F32>(
    m: Arith<C>,
    points: Seq<LevelPoint>,
    curve: Seq<LevelPoint>,
    again: Seq<LevelPoint>,
)
    requires
        made_of(m, points, curve),
        made_of(m, curve, again),
    ensures
        again == curve,
{
    let sorted = choose|sorted: Seq<LevelPoint>| #[trigger]
        points::tidied(points, sorted) && curve == distinct(m, sorted);
    points::lemma_tidied_is_in_shape(points, sorted);
    lemma_distinct_stays_in_shape(m, sorted);
    let resorted = choose|resorted: Seq<LevelPoint>| #[trigger]
        points::tidied(curve, resorted) && again == distinct(m, resorted);
    points::lemma_shape_stays(curve, resorted);
    lemma_distinct_stay(m, sorted);
}

/// Where the first point that is not below a frequency stands.
pub open spec fn first_not_below(points: Seq<LevelPoint>, hz: F32) -> int {
    choose|at: int| splits_at(points, hz, at)
}

/// Whether the points before `at` lie below a frequency, and the one there does not.
pub open spec fn splits_at(points: Seq<LevelPoint>, hz: F32, at: int) -> bool {
    &&& 0 <= at < points.len()
    &&& forall|i: int| 0 <= i < at ==> (#[trigger] points[i]).hz.lt(hz)
    &&& !points[at].hz.lt(hz)
}

/// The level between two points, in proportion to the logarithm of frequency.
#[verifier::allow_in_spec]
pub fn blended<C: Fn(Calc) -> F32>(m: &Arith<C>, low: LevelPoint, high: LevelPoint, hz: F32) -> F32
    returns
        (if m.minus(m.log10(high.hz), m.log10(low.hz)).le(num(ZERO)) {
            low.db
        } else {
            m.plus(
                low.db,
                m.times(
                    m.minus(high.db, low.db),
                    m.over(
                        m.minus(m.log10(hz), m.log10(low.hz)),
                        m.minus(m.log10(high.hz), m.log10(low.hz)),
                    ),
                ),
            )
        }),
{
    let span = m.minus(m.log10(high.hz), m.log10(low.hz));
    if span.le(num(ZERO)) {
        return low.db;
    }
    let t = m.over(m.minus(m.log10(hz), m.log10(low.hz)), span);
    m.plus(low.db, m.times(m.minus(high.db, low.db), t))
}

/// The correction that points give at a frequency. Outside their range the nearest
/// endpoint is held: extrapolating past where a microphone was measured invents data.
pub open spec fn correction<C: Fn(Calc) -> F32>(m: Arith<C>, points: Seq<LevelPoint>, hz: F32) -> F32 {
    let at = first_not_below(points, hz);
    if points.len() == 0 || !hz.finite() || hz.le(num(ZERO)) {
        num(ZERO)
    } else if hz.le(points[0].hz) {
        points[0].db
    } else if points.last().hz.le(hz) {
        points.last().db
    } else {
        blended(&m, points[at - 1], points[at], hz)
    }
}

/// Whether a character separates words: one of Unicode's white space.
#[verifier::allow_in_spec]
pub fn is_space(c: char) -> bool
    returns
        ('\u{9}' <= c && c <= '\u{d}') || c == ' ' || c == '\u{85}' || c == '\u{a0}' || c
            == '\u{1680}' || ('\u{2000}' <= c && c <= '\u{200a}') || c == '\u{2028}' || c
            == '\u{2029}' || c == '\u{202f}' || c == '\u{205f}' || c == '\u{3000}',
{
    ('\u{9}' <= c && c <= '\u{d}') || c == ' ' || c == '\u{85}' || c == '\u{a0}' || c == '\u{1680}'
        || ('\u{2000}' <= c && c <= '\u{200a}') || c == '\u{2028}' || c == '\u{2029}' || c
        == '\u{202f}' || c == '\u{205f}' || c == '\u{3000}'
}

/// Whether a character separates fields.
#[verifier::allow_in_spec]
pub fn separates(c: char) -> bool
    returns
        is_space(c) || c == ',',
{
    is_space(c) || c == ','
}

/// Whether a character at the start of a line makes it a comment.
#[verifier::allow_in_spec]
pub fn marks_comment(c: char) -> bool
    returns
        c == '*' || c == '#' || c == ';' || c == '"',
{
    c == '*' || c == '#' || c == ';' || c == '"'
}

/// Where the first line of a text ends.
pub open spec fn line_end(text: Seq<char>) -> int
    decreases text.len(),
{
    if text.len() == 0 || text[0] == '\n' {
        0
    } else {
        1 + line_end(text.skip(1))
    }
}

/// Where the white space at the start of a line ends.
pub open spec fn space_end(line: Seq<char>) -> int
    decreases line.len(),
{
    if line.len() == 0 || !is_space(line[0]) {
        0
    } else {
        1 + space_end(line.skip(1))
    }
}

/// Where the separators at the start of a line end.
pub open spec fn gap_end(line: Seq<char>) -> int
    decreases line.len(),
{
    if line.len() == 0 || !separates(line[0]) {
        0
    } else {
        1 + gap_end(line.skip(1))
    }
}

/// Where the field at the start of a line ends.
pub open spec fn field_end(line: Seq<char>) -> int
    decreases line.len(),
{
    if line.len() == 0 || separates(line[0]) {
        0
    } else {
        1 + field_end(line.skip(1))
    }
}

/// A way to read a number out of its characters, the same one every time.
pub open spec fn settled_reader<N: Fn(&[char]) -> Option<F32>>(read: N) -> bool {
    &&& forall|field: &[char]| #[trigger] read.requires((field,))
    &&& forall|a: &[char], b: &[char], x: Option<F32>, y: Option<F32>| #[trigger]
        read.ensures((a,), x) && #[trigger] read.ensures((b,), y) && a@ == b@ ==> x == y
}

/// A way to read numbers.
pub struct Reader<N: Fn(&[char]) -> Option<F32>> {
    read: N,
}

impl<N: Fn(&[char]) -> Option<F32>> Reader<N> {
    #[verifier::type_invariant]
    spec fn is_settled(self) -> bool {
        settled_reader(self.read)
    }

    spec fn gives(self, field: Seq<char>, number: Option<F32>) -> bool {
        exists|chars: &[char]| #[trigger] self.read.ensures((chars,), number) && chars@ == field
    }

    /// The number that a field holds.
    pub closed spec fn of(self, field: Seq<char>) -> Option<F32> {
        choose|number: Option<F32>| self.gives(field, number)
    }

    /// A reader that goes by `read`.
    pub fn new(read: N) -> (reader: Reader<N>)
        requires
            settled_reader(read),
        ensures
            forall|field: &[char], number: Option<F32>| #[trigger]
                read.ensures((field,), number) ==> reader.of(field@) == number,
    {
        let reader = Reader { read };
        proof {
            assert forall|field: &[char], number: Option<F32>| #[trigger]
                read.ensures((field,), number) implies reader.of(field@) == number by {
                assert(reader.gives(field@, number));
                assert(reader.gives(field@, reader.of(field@)));
            }
        }
        reader
    }

    /// The number that a field holds, `None` where it holds none.
    pub fn number(&self, field: &[char]) -> (number: Option<F32>)
        ensures
            number == self.of(field@),
    {
        proof {
            use_type_invariant(self);
        }
        let number = (self.read)(field);
        proof {
            assert(self.gives(field@, number));
            assert(self.gives(field@, self.of(field@)));
        }
        number
    }
}

/// The first field of a line and what follows it.
pub open spec fn first_field(line: Seq<char>) -> Seq<char> {
    let rest = line.skip(gap_end(line));
    rest.take(field_end(rest))
}

pub open spec fn after_first_field(line: Seq<char>) -> Seq<char> {
    let rest = line.skip(gap_end(line));
    rest.skip(field_end(rest))
}

/// The point that a line holds. Comments, and lines without two numbers at their
/// start, hold none.
pub open spec fn line_point<N: Fn(&[char]) -> Option<F32>>(
    reader: Reader<N>,
    line: Seq<char>,
) -> Option<LevelPoint> {
    let start = space_end(line);
    let hz = first_field(line);
    let db = first_field(after_first_field(line));
    if start == line.len() || marks_comment(line[start]) {
        None
    } else if hz.len() == 0 || db.len() == 0 {
        None
    } else {
        match (reader.of(hz), reader.of(db)) {
            (Some(hz), Some(db)) => Some(LevelPoint { hz, db }),
            _ => None,
        }
    }
}

/// The points that a text holds, line by line.
pub open spec fn text_points<N: Fn(&[char]) -> Option<F32>>(
    reader: Reader<N>,
    text: Seq<char>,
) -> Seq<LevelPoint>
    decreases text.len(),
{
    if text.len() == 0 {
        Seq::empty()
    } else {
        proof {
            lemma_line_end_in_text(text);
        }
        let end = line_end(text);
        let rest = if end < text.len() {
            text.skip(end + 1)
        } else {
            Seq::empty()
        };
        match line_point(reader, text.take(end)) {
            Some(point) => seq![point] + text_points(reader, rest),
            None => text_points(reader, rest),
        }
    }
}

/// The first line ends at a line break or at the end of the text.
pub proof fn lemma_line_end_in_text(text: Seq<char>)
    ensures
        0 <= line_end(text) <= text.len(),
        forall|i: int| 0 <= i < line_end(text) ==> #[trigger] text[i] != '\n',
        line_end(text) < text.len() ==> text[line_end(text)] == '\n',
    decreases text.len(),
{
    if text.len() > 0 && text[0] != '\n' {
        let rest = text.skip(1);
        lemma_line_end_in_text(rest);
        assert forall|i: int| 0 <= i < line_end(text) implies #[trigger] text[i] != '\n' by {
            if i > 0 {
                assert(text[i] == rest[i - 1]);
            }
        }
    }
}

proof fn lemma_line_end_is(text: Seq<char>, end: int)
    requires
        0 <= end <= text.len(),
        forall|i: int| 0 <= i < end ==> #[trigger] text[i] != '\n',
        end < text.len() ==> text[end] == '\n',
    ensures
        line_end(text) == end,
{
    lemma_line_end_in_text(text);
    let other = line_end(text);
    if other < end {
        assert(text[other] != '\n');
    } else if end < other {
        assert(text[end] != '\n');
    }
}

/// Where the white space after `from` ends.
fn skip_space(line: &[char], from: usize) -> (at: usize)
    requires
        from <= line@.len(),
    ensures
        at == from + space_end(line@.skip(from as int)),
        from <= at <= line@.len(),
{
    let n: usize = line.len();
    let mut at: usize = from;
    while at < n && is_space(line[at])
        invariant
            n == line@.len(),
            from <= at <= n,
            space_end(line@.skip(from as int)) == at - from + space_end(line@.skip(at as int)),
        decreases n - at,
    {
        assert(line@.skip(at as int).skip(1) =~= line@.skip(at + 1));
        assert(line@.skip(at as int)[0] == line@[at as int]);
        at = at + 1;
    }
    assert(at < n ==> line@.skip(at as int)[0] == line@[at as int]);
    at
}

/// Where the separators after `from` end.
fn skip_gap(line: &[char], from: usize) -> (at: usize)
    requires
        from <= line@.len(),
    ensures
        at == from + gap_end(line@.skip(from as int)),
        from <= at <= line@.len(),
{
    let n: usize = line.len();
    let mut at: usize = from;
    while at < n && separates(line[at])
        invariant
            n == line@.len(),
            from <= at <= n,
            gap_end(line@.skip(from as int)) == at - from + gap_end(line@.skip(at as int)),
        decreases n - at,
    {
        assert(line@.skip(at as int).skip(1) =~= line@.skip(at + 1));
        assert(line@.skip(at as int)[0] == line@[at as int]);
        at = at + 1;
    }
    assert(at < n ==> line@.skip(at as int)[0] == line@[at as int]);
    at
}

/// Where the field after `from` ends.
fn skip_field(line: &[char], from: usize) -> (at: usize)
    requires
        from <= line@.len(),
    ensures
        at == from + field_end(line@.skip(from as int)),
        from <= at <= line@.len(),
{
    let n: usize = line.len();
    let mut at: usize = from;
    while at < n && !separates(line[at])
        invariant
            n == line@.len(),
            from <= at <= n,
            field_end(line@.skip(from as int)) == at - from + field_end(line@.skip(at as int)),
        decreases n - at,
    {
        assert(line@.skip(at as int).skip(1) =~= line@.skip(at + 1));
        assert(line@.skip(at as int)[0] == line@[at as int]);
        at = at + 1;
    }
    assert(at < n ==> line@.skip(at as int)[0] == line@[at as int]);
    at
}

/// The point that a line holds.
fn read_line<N: Fn(&[char]) -> Option<F32>>(reader: &Reader<N>, line: &[char]) -> (point: Option<
    LevelPoint,
>)
    ensures
        point == line_point(*reader, line@),
{
    assert(line@.skip(0) =~= line@);
    let start: usize = skip_space(line, 0);
    if start == line.len() {
        return None;
    }
    if marks_comment(line[start]) {
        return None;
    }
    let hz_start: usize = skip_gap(line, 0);
    let hz_end: usize = skip_field(line, hz_start);
    let db_start: usize = skip_gap(line, hz_end);
    let db_end: usize = skip_field(line, db_start);
    let hz_field = vstd::slice::slice_subrange(line, hz_start, hz_end);
    let db_field = vstd::slice::slice_subrange(line, db_start, db_end);
    proof {
        let rest = line@.skip(gap_end(line@));
        assert(rest =~= line@.skip(hz_start as int));
        assert(hz_field@ =~= first_field(line@));
        assert(after_first_field(line@) =~= line@.skip(hz_end as int));
        let more = line@.skip(hz_end as int);
        assert(more.skip(gap_end(more)) =~= line@.skip(db_start as int));
        assert(db_field@ =~= first_field(after_first_field(line@)));
    }
    if hz_field.len() == 0 || db_field.len() == 0 {
        return None;
    }
    match reader.number(hz_field) {
        None => None,
        Some(hz) => match reader.number(db_field) {
            None => None,
            Some(db) => Some(LevelPoint { hz, db }),
        },
    }
}

/// The points that a text holds.
fn read_points<N: Fn(&[char]) -> Option<F32>>(reader: &Reader<N>, text: &[char]) -> (points: Vec<
    LevelPoint,
>)
    ensures
        points@ == text_points(*reader, text@),
{
    let n: usize = text.len();
    let mut points: Vec<LevelPoint> = Vec::new();
    let mut from: usize = 0;
    assert(text@.skip(0) =~= text@);
    while from < n
        invariant
            n == text@.len(),
            from <= n,
            text_points(*reader, text@) == points@ + text_points(
                *reader,
                text@.skip(from as int),
            ),
        decreases n - from,
    {
        let ghost rest = text@.skip(from as int);
        let mut end: usize = from;
        while end < n && text[end] != '\n'
            invariant
                n == text@.len(),
                from <= end <= n,
                rest == text@.skip(from as int),
                forall|i: int| 0 <= i < end - from ==> #[trigger] rest[i] != '\n',
            decreases n - end,
        {
            end = end + 1;
        }
        proof {
            assert(end < n ==> rest[end - from] == text@[end as int]);
            lemma_line_end_is(rest, end - from);
        }
        let line = vstd::slice::slice_subrange(text, from, end);
        assert(line@ =~= rest.take(line_end(rest)));
        let ghost before = points@;
        let next: usize = if end < n {
            end + 1
        } else {
            n
        };
        proof {
            if end < n {
                assert(rest.skip(line_end(rest) + 1) =~= text@.skip(next as int));
            } else {
                assert(text@.skip(next as int) =~= Seq::<char>::empty());
            }
        }
        if let Some(point) = read_line(reader, line) {
            points.push(point);
            assert(before + (seq![point] + text_points(*reader, text@.skip(next as int)))
                =~= points@ + text_points(*reader, text@.skip(next as int)));
        }
        from = next;
    }
    assert(text@.skip(from as int) =~= Seq::<char>::empty());
    assert(points@ + text_points(*reader, text@.skip(from as int)) =~= points@);
    points
}

/// The characters of a text.
fn characters(text: &str) -> (chars: Vec<char>)
    ensures
        chars@ == text@,
{
    let mut chars: Vec<char> = Vec::new();
    for c in it: text.chars()
        invariant
            chars@ == it.seq().take(it.index() as int),
            it.seq() == text@,
    {
        chars.push(c);
    }
    assert(chars@ =~= text@);
    chars
}

/// A sparse frequency response, sorted ascending by frequency.
#[derive(Debug, PartialEq)]
pub struct ResponseCurve {
    points: Vec<LevelPoint>,
}

impl View for ResponseCurve {
    type V = Seq<LevelPoint>;

    closed spec fn view(&self) -> Seq<LevelPoint> {
        self.points@
    }
}

/// Whether a curve is made of points: tidied, and without repeated frequencies.
pub open spec fn made_of<C: Fn(Calc) -> F32>(
    m: Arith<C>,
    points: Seq<LevelPoint>,
    curve: Seq<LevelPoint>,
) -> bool {
    exists|sorted: Seq<LevelPoint>| #[trigger]
        points::tidied(points, sorted) && curve == distinct(m, sorted)
}

impl Clone for ResponseCurve {
    fn clone(&self) -> (curve: ResponseCurve)
        ensures
            curve@ == self@,
    {
        proof {
            use_type_invariant(self);
        }
        let mut points: Vec<LevelPoint> = Vec::new();
        let mut i: usize = 0;
        while i < self.points.len()
            invariant
                i <= self.points@.len(),
                points@ == self.points@.take(i as int),
            decreases self.points@.len() - i,
        {
            points.push(self.points[i]);
            i = i + 1;
        }
        assert(points@ =~= self.points@);
        ResponseCurve { points }
    }
}

impl Default for ResponseCurve {
    fn default() -> (curve: ResponseCurve)
        ensures
            curve@ == Seq::<LevelPoint>::empty(),
    {
        ResponseCurve::flat()
    }
}

impl ResponseCurve {
    #[verifier::type_invariant]
    spec fn is_in_shape(self) -> bool {
        points::in_shape(self.points@)
    }

    /// Build from points.
    ///
    /// Points are sorted and unusable ones dropped, so a file listing a DC row or
    /// arriving out of order still works.
    pub fn new<C: Fn(Calc) -> F32>(m: &Arith<C>, points: Vec<LevelPoint>) -> (curve: ResponseCurve)
        ensures
            made_of(*m, points@, curve@),
    {
        let sorted = tidy(points.as_slice());
        let mut kept: Vec<LevelPoint> = Vec::new();
        let mut i: usize = 0;
        assert(sorted@.take(0) =~= Seq::<LevelPoint>::empty());
        while i < sorted.len()
            invariant
                i <= sorted@.len(),
                kept@ == distinct(*m, sorted@.take(i as int)),
            decreases sorted@.len() - i,
        {
            let point = sorted[i];
            if kept.len() == 0 || !repeats(m, point, kept[kept.len() - 1]) {
                kept.push(point);
            }
            i = i + 1;
            assert(sorted@.take(i as int).drop_last() =~= sorted@.take(i - 1));
        }
        assert(sorted@.take(i as int) =~= sorted@);
        proof {
            lemma_distinct_stays_in_shape(*m, sorted@);
        }
        ResponseCurve { points: kept }
    }

    /// A curve that corrects nothing.
    pub fn flat() -> (curve: ResponseCurve)
        ensures
            curve@ == Seq::<LevelPoint>::empty(),
    {
        ResponseCurve { points: Vec::new() }
    }

    /// Whether this curve would change nothing.
    pub fn is_flat(&self) -> (flat: bool)
        ensures
            flat == (self@.len() == 0),
    {
        self.points.len() == 0
    }

    /// The points, ascending by frequency.
    pub fn points(&self) -> (points: &[LevelPoint])
        ensures
            points@ == self@,
            points::in_shape(points@),
    {
        proof {
            use_type_invariant(self);
        }
        self.points.as_slice()
    }

    /// Correction in decibels at `hz`.
    pub fn db_at<C: Fn(Calc) -> F32>(&self, m: &Arith<C>, hz: F32) -> (db: F32)
        ensures
            db == correction(*m, self@, hz),
    {
        proof {
            use_type_invariant(self);
        }
        let n: usize = self.points.len();
        if n == 0 || !hz.is_finite() || hz.le(num(ZERO)) {
            return num(ZERO);
        }
        if hz.le(self.points[0].hz) {
            return self.points[0].db;
        }
        if self.points[n - 1].hz.le(hz) {
            return self.points[n - 1].db;
        }
        let mut low: usize = 0;
        let mut high: usize = n - 1;
        assert(self.points@[0].usable() && self.points@[n - 1].usable());
        // Everything up to `low` lies below, and `high` does not.
        while high - low > 1
            invariant
                n == self.points@.len(),
                low < high < n,
                hz.finite(),
                points::in_shape(self.points@),
                self.points@[low as int].hz.lt(hz),
                !self.points@[high as int].hz.lt(hz),
            decreases high - low,
        {
            let middle: usize = low + (high - low) / 2;
            assert(self.points@[middle as int].usable());
            if self.points[middle].hz.lt(hz) {
                low = middle;
            } else {
                high = middle;
            }
        }
        proof {
            assert forall|i: int| 0 <= i < high implies (#[trigger] self.points@[i]).hz.lt(hz) by {
                assert(self.points@[i].usable());
                if i < low {
                    assert(self.points@[i].hz.at_most(self.points@[low as int].hz));
                }
            }
            assert(splits_at(self.points@, hz, high as int));
            let other = first_not_below(self.points@, hz);
            assert(splits_at(self.points@, hz, other));
            if other < high {
                assert(self.points@[other].hz.lt(hz));
            } else if high < other {
                assert(self.points@[high as int].hz.lt(hz));
            }
        }
        blended(m, self.points[high - 1], self.points[high], hz)
    }

    /// Parse a calibration file.
    ///
    /// Comment lines start with `*`, `#`, `;` or `"`; the others hold a frequency
    /// and a level, separated by white space or commas, and whatever follows is
    /// ignored. Lines that hold no two numbers are skipped, because vendor files
    /// routinely carry stray headers and trailing junk.
    pub fn parse<C: Fn(Calc) -> F32, N: Fn(&[char]) -> Option<F32>>(
        m: &Arith<C>,
        reader: &Reader<N>,
        text: &str,
    ) -> (curve: ResponseCurve)
        ensures
            made_of(*m, text_points(*reader, text@), curve@),
    {
        let chars = characters(text);
        Self::new(m, read_points(reader, chars.as_slice()))
    }

    /// A summary for display. `first` and `last` are the frequencies at the ends of
    /// the curve, written out.
    pub fn summary(&self, first: &str, last: &str) -> (summary: String)
        ensures
            summary@ == if self@.len() == 0 {
                "flat"@
            } else {
                text::decimal(self@.len()) + " points, "@ + first@ + "-"@ + last@ + " Hz"@
            },
    {
        if self.points.len() == 0 {
            return String::from_str("flat");
        }
        let mut summary = decimal_text(self.points.len() as u64);
        summary.append(" points, ");
        summary.append(first);
        summary.append("-");
        summary.append(last);
        summary.append(" Hz");
        summary
    }
}

/// Between two neighbouring points the correction goes from the level of the one to that
/// of the other, as far as the logarithm of the frequency does.
pub proof fn lemma_correction_between_points<C: Fn(Calc) -> F32>(
    m: Arith<C>,
    points: Seq<LevelPoint>,
    hz: F32,
    k: int,
)
    requires
        points::in_shape(points),
        hz.finite(),
        0 <= k,
        k + 1 < points.len(),
        points[k].hz.less(hz),
        hz.at_most(points[k + 1].hz),
        hz.less(points.last().hz),
    ensures
        ({
            let (low, high) = (points[k], points[k + 1]);
            let span = m.minus(m.log10(high.hz), m.log10(low.hz));
            let way = m.over(m.minus(m.log10(hz), m.log10(low.hz)), span);
            &&& span.at_most(num(ZERO)) ==> correction(m, points, hz) == low.db
            &&& !span.at_most(num(ZERO)) ==> correction(m, points, hz) == m.plus(
                low.db,
                m.times(m.minus(high.db, low.db), way),
            )
        }),
{
    assert(points[k].usable() && points[k + 1].usable() && points[0].usable());
    assert(splits_at(points, hz, k + 1)) by {
        assert forall|i: int| 0 <= i < k + 1 implies (#[trigger] points[i]).hz.lt(hz) by {
            assert(points[i].usable());
            if i < k {
                assert(points[i].hz.at_most(points[k].hz));
            }
        }
    }
    let other = first_not_below(points, hz);
    assert(splits_at(points, hz, other));
    if other < k + 1 {
        assert(points[other].hz.lt(hz));
    } else if k + 1 < other {
        assert(points[k + 1].hz.lt(hz));
    }
    if k > 0 {
        assert(points[0].hz.at_most(points[k].hz));
    }
}

/// A frequency outside the points has the level of the point at that end, and one that
/// is no frequency has no correction. Neither has a curve without points.
pub proof fn lemma_correction_outside<C: Fn(Calc) -> F32>(
    m: Arith<C>,
    points: Seq<LevelPoint>,
    hz: F32,
)
    ensures
        points.len() == 0 || !hz.finite() || hz.at_most(num(ZERO)) ==> correction(m, points, hz)
            == num(ZERO),
        points.len() > 0 && hz.finite() && num(ZERO).less(hz) && hz.at_most(points[0].hz)
            ==> correction(m, points, hz) == points[0].db,
        points.len() > 0 && hz.finite() && num(ZERO).less(hz) && points[0].hz.less(hz)
            && points.last().hz.at_most(hz) ==> correction(m, points, hz) == points.last().db,
{
}

/// At the frequency of a point the correction is that point's level, where going the
/// whole way from one level to the next arrives there.
pub proof fn lemma_correction_at_a_point<C: Fn(Calc) -> F32>(
    m: Arith<C>,
    points: Seq<LevelPoint>,
    k: int,
)
    requires
        points::in_shape(points),
        0 <= k < points.len(),
        0 < k && k + 1 < points.len() ==> {
            let (low, high) = (points[k - 1], points[k]);
            let span = m.minus(m.log10(high.hz), m.log10(low.hz));
            &&& low.hz.less(high.hz)
            &&& high.hz.less(points[k + 1].hz)
            &&& num(ZERO).less(span)
            &&& m.plus(low.db, m.times(m.minus(high.db, low.db), m.over(span, span))) == high.db
        },
        k + 1 == points.len() && k > 0 ==> points[0].hz.less(points[k].hz),
    ensures
        correction(m, points, points[k].hz) == points[k].db,
{
    assert(points[k].usable());
    if 0 < k && k + 1 < points.len() {
        let last = points.len() - 1;
        assert(points[last].usable());
        if k + 1 < last {
            assert(points[k + 1].hz.at_most(points[last].hz));
        }
        lemma_correction_between_points(m, points, points[k].hz, k - 1);
    } else {
        lemma_correction_outside(m, points, points[k].hz);
    }
}

/// A text is read a line at a time: each line gives its point, or none, and they follow
/// in order.
pub proof fn lemma_lines_are_read_in_turn<N: Fn(&[char]) -> Option<F32>>(
    reader: Reader<N>,
    line: Seq<char>,
    rest: Seq<char>,
)
    requires
        forall|i: int| 0 <= i < line.len() ==> #[trigger] line[i] != '\n',
    ensures
        text_points(reader, line.push('\n') + rest) == match line_point(reader, line) {
            Some(point) => seq![point] + text_points(reader, rest),
            None => text_points(reader, rest),
        },
        line.len() > 0 ==> text_points(reader, line) == match line_point(reader, line) {
            Some(point) => seq![point],
            None => Seq::empty(),
        },
{
    let text = line.push('\n') + rest;
    let end = line.len() as int;
    assert forall|i: int| 0 <= i < end implies #[trigger] text[i] != '\n' by {
        assert(text[i] == line[i]);
    }
    assert(text[end] == '\n');
    lemma_line_end_is(text, end);
    assert(text.take(end) =~= line);
    assert(text.skip(end + 1) =~= rest);
    lemma_line_end_is(line, end);
    assert(line.take(end) =~= line);
    assert(text_points(reader, Seq::<char>::empty()) =~= Seq::empty());
    if line.len() > 0 {
        match line_point(reader, line) {
            Some(point) => {
                assert(seq![point] + Seq::<LevelPoint>::empty() =~= seq![point]);
            },
            None => {},
        }
    }
}

/// A line of two fields, whatever separates them and whatever follows, holds the point
/// that the fields say. It holds none where it begins with a comment mark.
pub proof fn lemma_a_line_of_two_fields<N: Fn(&[char]) -> Option<F32>>(
    reader: Reader<N>,
    lead: Seq<char>,
    hz: Seq<char>,
    gap: Seq<char>,
    db: Seq<char>,
    tail: Seq<char>,
)
    requires
        hz.len() > 0,
        gap.len() > 0,
        db.len() > 0,
        forall|i: int| 0 <= i < lead.len() ==> is_space(#[trigger] lead[i]),
        forall|i: int| 0 <= i < hz.len() ==> !separates(#[trigger] hz[i]),
        forall|i: int| 0 <= i < gap.len() ==> separates(#[trigger] gap[i]),
        forall|i: int| 0 <= i < db.len() ==> !separates(#[trigger] db[i]),
        tail.len() > 0 ==> separates(tail[0]),
    ensures
        line_point(reader, lead + hz + gap + db + tail) == if hz[0] == '*' || hz[0] == '#' || hz[0]
            == ';' || hz[0] == '"' {
            None
        } else {
            match (reader.of(hz), reader.of(db)) {
                (Some(hz), Some(db)) => Some(LevelPoint { hz, db }),
                _ => None,
            }
        },
{
    let line = lead + hz + gap + db + tail;
    let after_lead = hz + gap + db + tail;
    assert(line =~= lead + after_lead);
    assert(!separates(hz[0]));
    assert(after_lead[0] == hz[0]);
    lemma_space_end_is(lead, after_lead);
    assert forall|i: int| 0 <= i < lead.len() implies separates(#[trigger] lead[i]) by {
        assert(is_space(lead[i]));
    }
    lemma_gap_end_is(lead, after_lead);
    assert(line.skip(lead.len() as int) =~= after_lead);
    let after_hz = gap + db + tail;
    assert(after_lead =~= hz + after_hz);
    assert(separates(gap[0]));
    assert(after_hz[0] == gap[0]);
    lemma_field_end_is(hz, after_hz);
    assert(first_field(line) =~= hz);
    assert(after_first_field(line) =~= after_hz);
    let after_gap = db + tail;
    assert(after_hz =~= gap + after_gap);
    assert(!separates(db[0]));
    assert(after_gap[0] == db[0]);
    lemma_gap_end_is(gap, after_gap);
    assert(after_hz.skip(gap.len() as int) =~= after_gap);
    lemma_field_end_is(db, tail);
    assert(first_field(after_hz) =~= db);
    assert(line[lead.len() as int] == hz[0]);
}

proof fn lemma_space_end_is(lead: Seq<char>, rest: Seq<char>)
    requires
        forall|i: int| 0 <= i < lead.len() ==> is_space(#[trigger] lead[i]),
        rest.len() > 0 ==> !is_space(rest[0]),
    ensures
        space_end(lead + rest) == lead.len(),
    decreases lead.len(),
{
    let line = lead + rest;
    if lead.len() > 0 {
        assert(line[0] == lead[0]);
        assert(line.skip(1) =~= lead.skip(1) + rest);
        lemma_space_end_is(lead.skip(1), rest);
    } else {
        assert(line =~= rest);
    }
}

proof fn lemma_gap_end_is(lead: Seq<char>, rest: Seq<char>)
    requires
        forall|i: int| 0 <= i < lead.len() ==> separates(#[trigger] lead[i]),
        rest.len() > 0 ==> !separates(rest[0]),
    ensures
        gap_end(lead + rest) == lead.len(),
    decreases lead.len(),
{
    let line = lead + rest;
    if lead.len() > 0 {
        assert(line[0] == lead[0]);
        assert(line.skip(1) =~= lead.skip(1) + rest);
        lemma_gap_end_is(lead.skip(1), rest);
    } else {
        assert(line =~= rest);
    }
}

proof fn lemma_field_end_is(field: Seq<char>, rest: Seq<char>)
    requires
        forall|i: int| 0 <= i < field.len() ==> !separates(#[trigger] field[i]),
        rest.len() > 0 ==> separates(rest[0]),
    ensures
        field_end(field + rest) == field.len(),
    decreases field.len(),
{
    let line = field + rest;
    if field.len() > 0 {
        assert(line[0] == field[0]);
        assert(line.skip(1) =~= field.skip(1) + rest);
        lemma_field_end_is(field.skip(1), rest);
    } else {
        assert(line =~= rest);
    }
}

} // verus!

//! Analysis windows and their correction factors.
//!
//! A transform treats its frame as one period of an infinitely repeating signal.
//! Unless the frame contains a whole number of cycles, the wrap-around point is a
//! discontinuity, and a single clean tone smears across the whole spectrum.
//! Tapering the frame to zero at both ends removes it, at the cost of attenuating
//! the signal and widening the response of each bin. Every window therefore
//! carries two correction factors.

use vstd::prelude::*;

use crate::arith;
use crate::arith::{squares_of, sum_of, Arith, Calc};
use crate::ieee::F32;
use crate::numbers::{num, HALF, ONE, PI, TAU, TWO, ZERO};

verus! {

/// Which taper to apply to an analysis frame.
#[derive(Debug, Clone, Copy, PartialEq, Eq, Structural)]
pub enum WindowKind {
    /// No taper. Correct only when the frame contains whole cycles.
    Rectangular,
    /// General-purpose default: a reasonable balance of resolution and leakage.
    Hann,
    /// Low leakage, wider main lobe. For resolving small signals near large ones.
    BlackmanHarris,
    /// Flat main lobe for accurate amplitude. For calibration.
    FlatTop,
    /// Tapered cosine. `alpha` is the fraction of the frame that is tapered.
    Tukey { alpha: F32 },
}

/// Coefficients of the generalised cosine windows.
pub open spec fn cosine_terms(kind: WindowKind) -> Seq<F32> {
    match kind {
        WindowKind::Hann => seq![num(0x3F00_0000), num(0x3F00_0000)],
        WindowKind::BlackmanHarris => seq![
            num(0x3EB7_AE14),
            num(0x3EFA_0126),
            num(0x3E10_ABB4),
            num(0x3C3F_5D79),
        ],
        WindowKind::FlatTop => seq![
            num(0x3E5C_C0BA),
            num(0x3ED5_50BC),
            num(0x3E8D_F570),
            num(0x3DAB_2B71),
            num(0x3BE3_A6BF),
        ],
        _ => Seq::empty(),
    }
}

fn terms_of(kind: WindowKind) -> (terms: Vec<F32>)
    ensures
        terms@ == cosine_terms(kind),
{
    match kind {
        WindowKind::Hann => vec![num(0x3F00_0000), num(0x3F00_0000)],
        WindowKind::BlackmanHarris => vec![
            num(0x3EB7_AE14),
            num(0x3EFA_0126),
            num(0x3E10_ABB4),
            num(0x3C3F_5D79),
        ],
        WindowKind::FlatTop => vec![
            num(0x3E5C_C0BA),
            num(0x3ED5_50BC),
            num(0x3E8D_F570),
            num(0x3DAB_2B71),
            num(0x3BE3_A6BF),
        ],
        _ => Vec::new(),
    }
}

/// The first `count` terms of a cosine window at one phase, alternating in sign.
pub open spec fn cosine_sum<C: Fn(Calc) -> F32>(
    m: Arith<C>,
    terms: Seq<F32>,
    phase: F32,
    count: nat,
) -> F32
    decreases count,
{
    if count == 0 {
        num(ZERO)
    } else {
        let k = (count - 1) as nat;
        let sign = if k % 2 == 0 {
            num(ONE)
        } else {
            num(ONE).negated()
        };
        m.plus(
            cosine_sum(m, terms, phase, k),
            m.times(m.times(sign, terms[k as int]), m.cosine(m.times(m.count(k as usize), phase))),
        )
    }
}

/// The sample of a tapered cosine window.
pub open spec fn tukey_sample<C: Fn(Calc) -> F32>(
    m: Arith<C>,
    alpha: F32,
    size: usize,
    i: usize,
) -> F32 {
    let n = m.count(size);
    let taper = m.over(m.times(alpha.clamp(num(ZERO), num(ONE)), n), num(TWO));
    let at = m.count(i);
    if num(ZERO).lt(taper) && at.lt(taper) {
        m.times(
            num(HALF),
            m.minus(num(ONE), m.cosine(m.over(m.times(num(PI), at), taper))),
        )
    } else if num(ZERO).lt(taper) && m.minus(n, taper).lt(at) {
        m.times(
            num(HALF),
            m.minus(num(ONE), m.cosine(m.over(m.times(num(PI), m.minus(n, at)), taper))),
        )
    } else {
        num(ONE)
    }
}

/// Sample `i` of a window of `size` samples, evaluated periodically: with `size` in
/// the denominator, not one less.
pub open spec fn window_sample<C: Fn(Calc) -> F32>(
    m: Arith<C>,
    kind: WindowKind,
    size: usize,
    i: usize,
) -> F32 {
    match kind {
        WindowKind::Rectangular => num(ONE),
        WindowKind::Tukey { alpha } => tukey_sample(m, alpha, size, i),
        _ => cosine_sum(
            m,
            cosine_terms(kind),
            m.over(m.times(num(TAU), m.count(i)), m.count(size)),
            cosine_terms(kind).len(),
        ),
    }
}

fn cosine_at<C: Fn(Calc) -> F32>(m: &Arith<C>, terms: &[F32], phase: F32) -> (sample: F32)
    ensures
        sample == cosine_sum(*m, terms@, phase, terms@.len()),
{
    let mut sum = num(ZERO);
    let mut k: usize = 0;
    while k < terms.len()
        invariant
            k <= terms@.len(),
            sum == cosine_sum(*m, terms@, phase, k as nat),
        decreases terms@.len() - k,
    {
        let sign = if k % 2 == 0 {
            num(ONE)
        } else {
            num(ONE).negated()
        };
        sum = m.plus(
            sum,
            m.times(m.times(sign, terms[k]), m.cosine(m.times(m.count(k), phase))),
        );
        k = k + 1;
    }
    sum
}

fn tukey_at<C: Fn(Calc) -> F32>(m: &Arith<C>, alpha: F32, size: usize, i: usize) -> (sample: F32)
    ensures
        sample == tukey_sample(*m, alpha, size, i),
{
    let n = m.count(size);
    let taper = m.over(m.times(alpha.clamp(num(ZERO), num(ONE)), n), num(TWO));
    let at = m.count(i);
    if num(ZERO).lt(taper) && at.lt(taper) {
        m.times(num(HALF), m.minus(num(ONE), m.cosine(m.over(m.times(num(PI), at), taper))))
    } else if num(ZERO).lt(taper) && m.minus(n, taper).lt(at) {
        m.times(
            num(HALF),
            m.minus(num(ONE), m.cosine(m.over(m.times(num(PI), m.minus(n, at)), taper))),
        )
    } else {
        num(ONE)
    }
}

/// The products of two lists of numbers, number by number.
pub open spec fn products<C: Fn(Calc) -> F32>(m: Arith<C>, a: Seq<F32>, b: Seq<F32>) -> Seq<F32> {
    Seq::new(a.len(), |i: int| m.times(a[i], b[i]))
}

/// A precomputed analysis window with its correction factors.
#[derive(Debug, Clone)]
pub struct Window {
    kind: WindowKind,
    samples: Vec<F32>,
    coherent_gain: F32,
    enbw_bins: F32,
}

impl Window {
    pub closed spec fn spec_kind(self) -> WindowKind {
        self.kind
    }

    /// The window coefficients.
    pub closed spec fn spec_samples(self) -> Seq<F32> {
        self.samples@
    }

    pub closed spec fn spec_coherent_gain(self) -> F32 {
        self.coherent_gain
    }

    pub closed spec fn spec_enbw_bins(self) -> F32 {
        self.enbw_bins
    }

    /// Whether this is the window of a kind and size: its samples follow the taper, and
    /// its correction factors follow from the samples.
    pub open spec fn made<C: Fn(Calc) -> F32>(self, m: Arith<C>, kind: WindowKind, size: usize) -> bool {
        let sum = arith::total(m, self.spec_samples());
        let sum_sq = arith::total(m, arith::squares(m, self.spec_samples()));
        &&& self.spec_kind() == kind
        &&& self.spec_samples() == Seq::new(
            size as nat,
            |i: int| window_sample(m, kind, size, i as usize),
        )
        &&& self.spec_coherent_gain() == m.over(sum, m.count(size))
        &&& self.spec_enbw_bins() == if sum.same(num(ZERO)) {
            num(ZERO)
        } else {
            m.over(m.times(m.count(size), sum_sq), m.times(sum, sum))
        }
    }

    /// Build a window of `size` samples.
    ///
    /// The correction factors are derived from the samples rather than tabulated,
    /// so they cannot drift out of step with them.
    pub fn new<C: Fn(Calc) -> F32>(m: &Arith<C>, kind: WindowKind, size: usize) -> (window: Window)
        requires
            size > 0,
        ensures
            window.made(*m, kind, size),
    {
        let terms = terms_of(kind);
        let mut samples: Vec<F32> = Vec::new();
        let mut i: usize = 0;
        while i < size
            invariant
                i <= size,
                samples@.len() == i,
                terms@ == cosine_terms(kind),
                forall|k: int|
                    0 <= k < i ==> #[trigger] samples@[k] == window_sample(
                        *m,
                        kind,
                        size,
                        k as usize,
                    ),
            decreases size - i,
        {
            let sample = match kind {
                WindowKind::Rectangular => num(ONE),
                WindowKind::Tukey { alpha } => tukey_at(m, alpha, size, i),
                _ => cosine_at(
                    m,
                    terms.as_slice(),
                    m.over(m.times(num(TAU), m.count(i)), m.count(size)),
                ),
            };
            samples.push(sample);
            i = i + 1;
        }
        assert(samples@ =~= Seq::new(
            size as nat,
            |i: int| window_sample(*m, kind, size, i as usize),
        ));
        let n = m.count(size);
        let sum = sum_of(m, samples.as_slice());
        let squared = squares_of(m, samples.as_slice());
        let sum_sq = sum_of(m, squared.as_slice());
        let coherent_gain = m.over(sum, n);
        let enbw_bins = if sum.same(num(ZERO)) {
            num(ZERO)
        } else {
            m.over(m.times(n, sum_sq), m.times(sum, sum))
        };
        Window { kind, samples, coherent_gain, enbw_bins }
    }

    /// Which taper this is.
    pub fn kind(&self) -> (kind: WindowKind)
        ensures
            kind == self.spec_kind(),
    {
        self.kind
    }

    /// Frame length in samples.
    pub fn size(&self) -> (size: usize)
        ensures
            size == self.spec_samples().len(),
    {
        self.samples.len()
    }

    /// The window coefficients.
    pub fn samples(&self) -> (samples: &[F32])
        ensures
            samples@ == self.spec_samples(),
    {
        self.samples.as_slice()
    }

    /// Mean of the window. A sinusoid passed through it comes out scaled by this.
    pub fn coherent_gain(&self) -> (gain: F32)
        ensures
            gain == self.spec_coherent_gain(),
    {
        self.coherent_gain
    }

    /// Reciprocal of [`Window::coherent_gain`], or zero.
    pub fn amplitude_correction<C: Fn(Calc) -> F32>(&self, m: &Arith<C>) -> (correction: F32)
        ensures
            correction == if self.spec_coherent_gain().same(num(ZERO)) {
                num(ZERO)
            } else {
                m.over(num(ONE), self.spec_coherent_gain())
            },
    {
        if self.coherent_gain.same(num(ZERO)) {
            num(ZERO)
        } else {
            m.over(num(ONE), self.coherent_gain)
        }
    }

    /// Equivalent noise bandwidth in bins.
    pub fn enbw_bins(&self) -> (bins: F32)
        ensures
            bins == self.spec_enbw_bins(),
    {
        self.enbw_bins
    }

    /// Apply the window in place.
    pub fn apply<C: Fn(Calc) -> F32>(&self, m: &Arith<C>, frame: &mut [F32])
        requires
            old(frame)@.len() == self.spec_samples().len(),
        ensures
            final(frame)@ == products(*m, old(frame)@, self.spec_samples()),
    {
        let n: usize = frame.len();
        let mut i: usize = 0;
        while i < n
            invariant
                i <= n,
                n == frame@.len(),
                n == old(frame)@.len(),
                n == self.samples@.len(),
                forall|k: int|
                    0 <= k < i ==> #[trigger] frame@[k] == m.times(
                        old(frame)@[k],
                        self.samples@[k],
                    ),
                forall|k: int| i <= k < n ==> #[trigger] frame@[k] == old(frame)@[k],
            decreases n - i,
        {
            frame[i] = m.times(frame[i], self.samples[i]);
            i = i + 1;
        }
        assert(frame@ =~= products(*m, old(frame)@, self.spec_samples()));
    }

    /// Apply the window, writing into `output` and leaving `input` untouched.
    pub fn apply_to<C: Fn(Calc) -> F32>(&self, m: &Arith<C>, input: &[F32], output: &mut [F32])
        requires
            input@.len() == self.spec_samples().len(),
            old(output)@.len() == self.spec_samples().len(),
        ensures
            final(output)@ == products(*m, input@, self.spec_samples()),
    {
        let n: usize = input.len();
        let mut i: usize = 0;
        while i < n
            invariant
                i <= n,
                n == input@.len(),
                n == output@.len(),
                n == self.samples@.len(),
                forall|k: int|
                    0 <= k < i ==> #[trigger] output@[k] == m.times(input@[k], self.samples@[k]),
            decreases n - i,
        {
            output[i] = m.times(input[i], self.samples[i]);
            i = i + 1;
        }
        assert(output@ =~= products(*m, input@, self.spec_samples()));
    }
}

/// A cosine window is a sum of cosines of the harmonics of one turn over its length, with
/// signs that alternate.
pub proof fn lemma_cosine_window<C: Fn(Calc) -> F32>(
    m: Arith<C>,
    kind: WindowKind,
    size: usize,
    i: usize,
)
    requires
        kind is Hann || kind is BlackmanHarris || kind is FlatTop,
    ensures
        ({
            let terms = cosine_terms(kind);
            let phase = m.over(m.times(num(TAU), m.count(i)), m.count(size));
            window_sample(m, kind, size, i) == arith::total(
                m,
                Seq::new(
                    terms.len(),
                    |k: int|
                        m.times(
                            m.times(
                                if k % 2 == 0 {
                                    num(ONE)
                                } else {
                                    num(ONE).spec_negated()
                                },
                                terms[k],
                            ),
                            m.cosine(m.times(m.count(k as usize), phase)),
                        ),
                ),
            )
        }),
{
    let terms = cosine_terms(kind);
    let phase = m.over(m.times(num(TAU), m.count(i)), m.count(size));
    lemma_cosine_sum(m, terms, phase, terms.len());
}

proof fn lemma_cosine_sum<C: Fn(Calc) -> F32>(
    m: Arith<C>,
    terms: Seq<F32>,
    phase: F32,
    count: nat,
)
    ensures
        cosine_sum(m, terms, phase, count) == arith::total(
            m,
            Seq::new(
                count,
                |k: int|
                    m.times(
                        m.times(
                            if k % 2 == 0 {
                                num(ONE)
                            } else {
                                num(ONE).spec_negated()
                            },
                            terms[k],
                        ),
                        m.cosine(m.times(m.count(k as usize), phase)),
                    ),
            ),
        ),
    decreases count,
{
    let waves = |k: int|
        m.times(
            m.times(
                if k % 2 == 0 {
                    num(ONE)
                } else {
                    num(ONE).spec_negated()
                },
                terms[k],
            ),
            m.cosine(m.times(m.count(k as usize), phase)),
        );
    if count > 0 {
        let less = (count - 1) as nat;
        lemma_cosine_sum(m, terms, phase, less);
        assert(Seq::new(count, waves).drop_last() =~= Seq::new(less, waves));
    }
}

/// A tapered cosine is one between its tapers, and rises over the first of them along
/// half a cosine. Without a taper it is one all along.
pub proof fn lemma_tukey_window<C: Fn(Calc) -> F32>(
    m: Arith<C>,
    alpha: F32,
    size: usize,
    i: usize,
)
    ensures
        ({
            let sample = window_sample(m, WindowKind::Tukey { alpha }, size, i);
            let taper = m.over(
                m.times(alpha.spec_clamp(num(ZERO), num(ONE)), m.count(size)),
                num(TWO),
            );
            &&& !num(ZERO).less(taper) ==> sample == num(ONE)
            &&& !m.count(i).less(taper) && !m.minus(m.count(size), taper).less(m.count(i))
                ==> sample == num(ONE)
            &&& num(ZERO).less(taper) && m.count(i).less(taper) ==> sample == m.times(
                num(HALF),
                m.minus(num(ONE), m.cosine(m.over(m.times(num(PI), m.count(i)), taper))),
            )
        }),
{
}

/// A tapered cosine falls as it rises: a sample is that which stands as far from the
/// other end, wherever the arithmetic of the places is exact and the tapers do not meet.
pub proof fn lemma_tukey_is_symmetric<C: Fn(Calc) -> F32>(
    m: Arith<C>,
    alpha: F32,
    size: usize,
    i: usize,
)
    requires
        0 < i < size,
        ({
            let (n, low, high) = (m.count(size), m.count(i), m.count((size - i) as usize));
            let taper = m.over(m.times(alpha.spec_clamp(num(ZERO), num(ONE)), n), num(TWO));
            &&& m.minus(n, high) == low
            &&& low.less(taper)
            &&& !high.less(taper)
            &&& m.minus(n, taper).less(high)
        }),
    ensures
        window_sample(m, WindowKind::Tukey { alpha }, size, i) == window_sample(
            m,
            WindowKind::Tukey { alpha },
            size,
            (size - i) as usize,
        ),
{
}

/// The correction factors of a window: its gain is the mean of its samples, its noise
/// bandwidth the mean of their squares over the square of their mean.
pub proof fn lemma_correction_factors<C: Fn(Calc) -> F32>(
    window: Window,
    m: Arith<C>,
    kind: WindowKind,
    size: usize,
)
    requires
        window.made(m, kind, size),
    ensures
        ({
            let samples = window.spec_samples();
            let sum = arith::total(m, samples);
            let squares = arith::total(
                m,
                Seq::new(samples.len(), |i: int| m.times(samples[i], samples[i])),
            );
            &&& samples.len() == size
            &&& window.spec_coherent_gain() == m.over(sum, m.count(size))
            &&& sum.rank() != 0 && !sum.nan() ==> window.spec_enbw_bins() == m.over(
                m.times(m.count(size), squares),
                m.times(sum, sum),
            )
            &&& sum.rank() == 0 ==> window.spec_enbw_bins() == num(ZERO)
        }),
{
    let samples = window.spec_samples();
    assert(arith::squares(m, samples) =~= Seq::new(
        samples.len(),
        |i: int| m.times(samples[i], samples[i]),
    ));
}

} // verus!

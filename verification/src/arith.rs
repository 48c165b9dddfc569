//! The arithmetic that measurements are made with.
//!
//! The library holds numbers as bit patterns and does no floating-point arithmetic
//! itself. Sums, products, logarithms and transforms are handed in, once, as
//! functions of their operands; everything built from them is built here.

use vstd::prelude::*;

use crate::ieee::{F32, F64};

verus! {

/// One step of single-precision arithmetic.
#[derive(Debug, Clone, Copy, PartialEq, Eq, Structural)]
pub enum Calc {
    /// `a + b`
    Plus(F32, F32),
    /// `a - b`
    Minus(F32, F32),
    /// `a * b`
    Times(F32, F32),
    /// `a / b`
    Over(F32, F32),
    /// The square root.
    Root(F32),
    /// The sine of an angle in radians.
    Sine(F32),
    /// The cosine of an angle in radians.
    Cosine(F32),
    /// The tangent of an angle in radians.
    Tangent(F32),
    /// The exponential.
    Exp(F32),
    /// The natural logarithm.
    Ln(F32),
    /// The logarithm to base two.
    Log2(F32),
    /// The logarithm to base ten.
    Log10(F32),
    /// `a` to the power of `b`.
    Power(F32, F32),
    /// The length of the hypotenuse over two sides.
    Hypot(F32, F32),
    /// The angle of the point with ordinate `a` and abscissa `b`, in radians.
    Angle(F32, F32),
    /// Radians to degrees.
    Degrees(F32),
    /// The least remainder of `a` by `b` that is not negative.
    Remainder(F32, F32),
    /// The greatest whole number that is not above.
    Floor(F32),
    /// A count.
    Count(u64),
    /// A whole number.
    Whole(i32),
    /// A double-precision number, rounded.
    Narrow(F64),
}

/// One step of double-precision arithmetic.
#[derive(Debug, Clone, Copy, PartialEq, Eq, Structural)]
pub enum Wide {
    /// `a + b`
    Plus(F64, F64),
    /// `a - b`
    Minus(F64, F64),
    /// `a * b`
    Times(F64, F64),
    /// `a / b`
    Over(F64, F64),
    /// The square root.
    Root(F64),
    /// The sine of an angle in radians.
    Sine(F64),
    /// The exponential.
    Exp(F64),
    /// The natural logarithm.
    Ln(F64),
    /// A count.
    Count(u64),
    /// A single-precision number.
    Widen(F32),
}

/// Whether a function gives every step of arithmetic one result.
pub open spec fn settled<C: Fn(Calc) -> F32>(calc: C) -> bool {
    &&& forall|step: Calc| #[trigger] calc.requires((step,))
    &&& forall|step: Calc, a: F32, b: F32| #[trigger]
        calc.ensures((step,), a) && #[trigger] calc.ensures((step,), b) ==> a == b
}

/// Whether a function gives every step of double-precision arithmetic one result.
pub open spec fn settled_wide<W: Fn(Wide) -> F64>(calc: W) -> bool {
    &&& forall|step: Wide| #[trigger] calc.requires((step,))
    &&& forall|step: Wide, a: F64, b: F64| #[trigger]
        calc.ensures((step,), a) && #[trigger] calc.ensures((step,), b) ==> a == b
}

/// Single-precision arithmetic.
pub struct Arith<C: Fn(Calc) -> F32> {
    calc: C,
}

impl<C: Fn(Calc) -> F32> Arith<C> {
    #[verifier::type_invariant]
    spec fn is_settled(self) -> bool {
        settled(self.calc)
    }

    /// The result of a step.
    pub closed spec fn of(self, step: Calc) -> F32 {
        choose|result: F32| self.calc.ensures((step,), result)
    }

    /// Arithmetic that goes by `calc`.
    pub fn new(calc: C) -> (arith: Arith<C>)
        requires
            settled(calc),
        ensures
            forall|step: Calc, result: F32| #[trigger]
                calc.ensures((step,), result) ==> arith.of(step) == result,
    {
        let arith = Arith { calc };
        proof {
            assert forall|step: Calc, result: F32| #[trigger]
                calc.ensures((step,), result) implies arith.of(step) == result by {
                assert(arith.calc.ensures((step,), arith.of(step)));
            }
        }
        arith
    }

    /// Take one step.
    pub fn calc(&self, step: Calc) -> (result: F32)
        ensures
            result == self.of(step),
    {
        proof {
            use_type_invariant(self);
        }
        let result = (self.calc)(step);
        assert(self.calc.ensures((step,), self.of(step)));
        result
    }

    /// `a + b`
    #[verifier::allow_in_spec]
    pub fn plus(&self, a: F32, b: F32) -> F32
        returns
            self.of(Calc::Plus(a, b)),
    {
        self.calc(Calc::Plus(a, b))
    }

    /// `a - b`
    #[verifier::allow_in_spec]
    pub fn minus(&self, a: F32, b: F32) -> F32
        returns
            self.of(Calc::Minus(a, b)),
    {
        self.calc(Calc::Minus(a, b))
    }

    /// `a * b`
    #[verifier::allow_in_spec]
    pub fn times(&self, a: F32, b: F32) -> F32
        returns
            self.of(Calc::Times(a, b)),
    {
        self.calc(Calc::Times(a, b))
    }

    /// `a / b`
    #[verifier::allow_in_spec]
    pub fn over(&self, a: F32, b: F32) -> F32
        returns
            self.of(Calc::Over(a, b)),
    {
        self.calc(Calc::Over(a, b))
    }

    /// `a` to the power of `b`.
    #[verifier::allow_in_spec]
    pub fn power(&self, a: F32, b: F32) -> F32
        returns
            self.of(Calc::Power(a, b)),
    {
        self.calc(Calc::Power(a, b))
    }

    /// The length of the hypotenuse over two sides.
    #[verifier::allow_in_spec]
    pub fn hypot(&self, a: F32, b: F32) -> F32
        returns
            self.of(Calc::Hypot(a, b)),
    {
        self.calc(Calc::Hypot(a, b))
    }

    /// The angle of the point with ordinate `a` and abscissa `b`.
    #[verifier::allow_in_spec]
    pub fn angle(&self, a: F32, b: F32) -> F32
        returns
            self.of(Calc::Angle(a, b)),
    {
        self.calc(Calc::Angle(a, b))
    }

    /// The least remainder of `a` by `b` that is not negative.
    #[verifier::allow_in_spec]
    pub fn remainder(&self, a: F32, b: F32) -> F32
        returns
            self.of(Calc::Remainder(a, b)),
    {
        self.calc(Calc::Remainder(a, b))
    }

    /// The square root.
    #[verifier::allow_in_spec]
    pub fn root(&self, a: F32) -> F32
        returns
            self.of(Calc::Root(a)),
    {
        self.calc(Calc::Root(a))
    }

    /// The sine.
    #[verifier::allow_in_spec]
    pub fn sine(&self, a: F32) -> F32
        returns
            self.of(Calc::Sine(a)),
    {
        self.calc(Calc::Sine(a))
    }

    /// The cosine.
    #[verifier::allow_in_spec]
    pub fn cosine(&self, a: F32) -> F32
        returns
            self.of(Calc::Cosine(a)),
    {
        self.calc(Calc::Cosine(a))
    }

    /// The tangent.
    #[verifier::allow_in_spec]
    pub fn tangent(&self, a: F32) -> F32
        returns
            self.of(Calc::Tangent(a)),
    {
        self.calc(Calc::Tangent(a))
    }

    /// The exponential.
    #[verifier::allow_in_spec]
    pub fn exp(&self, a: F32) -> F32
        returns
            self.of(Calc::Exp(a)),
    {
        self.calc(Calc::Exp(a))
    }

    /// The natural logarithm.
    #[verifier::allow_in_spec]
    pub fn ln(&self, a: F32) -> F32
        returns
            self.of(Calc::Ln(a)),
    {
        self.calc(Calc::Ln(a))
    }

    /// The logarithm to base two.
    #[verifier::allow_in_spec]
    pub fn log2(&self, a: F32) -> F32
        returns
            self.of(Calc::Log2(a)),
    {
        self.calc(Calc::Log2(a))
    }

    /// The logarithm to base ten.
    #[verifier::allow_in_spec]
    pub fn log10(&self, a: F32) -> F32
        returns
            self.of(Calc::Log10(a)),
    {
        self.calc(Calc::Log10(a))
    }

    /// Radians to degrees.
    #[verifier::allow_in_spec]
    pub fn degrees(&self, a: F32) -> F32
        returns
            self.of(Calc::Degrees(a)),
    {
        self.calc(Calc::Degrees(a))
    }

    /// The greatest whole number that is not above.
    #[verifier::allow_in_spec]
    pub fn floor(&self, a: F32) -> F32
        returns
            self.of(Calc::Floor(a)),
    {
        self.calc(Calc::Floor(a))
    }

    /// A count.
    #[verifier::allow_in_spec]
    pub fn count(&self, n: usize) -> F32
        returns
            self.of(Calc::Count(n as u64)),
    {
        self.calc(Calc::Count(n as u64))
    }

    /// A whole number.
    #[verifier::allow_in_spec]
    pub fn whole(&self, n: i32) -> F32
        returns
            self.of(Calc::Whole(n)),
    {
        self.calc(Calc::Whole(n))
    }

    /// A double-precision number, rounded.
    #[verifier::allow_in_spec]
    pub fn narrow(&self, a: F64) -> F32
        returns
            self.of(Calc::Narrow(a)),
    {
        self.calc(Calc::Narrow(a))
    }
}

/// Double-precision arithmetic.
pub struct WideArith<W: Fn(Wide) -> F64> {
    calc: W,
}

impl<W: Fn(Wide) -> F64> WideArith<W> {
    #[verifier::type_invariant]
    spec fn is_settled(self) -> bool {
        settled_wide(self.calc)
    }

    /// The result of a step.
    pub closed spec fn of(self, step: Wide) -> F64 {
        choose|result: F64| self.calc.ensures((step,), result)
    }

    /// Arithmetic that goes by `calc`.
    pub fn new(calc: W) -> (arith: WideArith<W>)
        requires
            settled_wide(calc),
        ensures
            forall|step: Wide, result: F64| #[trigger]
                calc.ensures((step,), result) ==> arith.of(step) == result,
    {
        let arith = WideArith { calc };
        proof {
            assert forall|step: Wide, result: F64| #[trigger]
                calc.ensures((step,), result) implies arith.of(step) == result by {
                assert(arith.calc.ensures((step,), arith.of(step)));
            }
        }
        arith
    }

    /// Take one step.
    pub fn calc(&self, step: Wide) -> (result: F64)
        ensures
            result == self.of(step),
    {
        proof {
            use_type_invariant(self);
        }
        let result = (self.calc)(step);
        assert(self.calc.ensures((step,), self.of(step)));
        result
    }

    /// `a + b`
    #[verifier::allow_in_spec]
    pub fn plus(&self, a: F64, b: F64) -> F64
        returns
            self.of(Wide::Plus(a, b)),
    {
        self.calc(Wide::Plus(a, b))
    }

    /// `a - b`
    #[verifier::allow_in_spec]
    pub fn minus(&self, a: F64, b: F64) -> F64
        returns
            self.of(Wide::Minus(a, b)),
    {
        self.calc(Wide::Minus(a, b))
    }

    /// `a * b`
    #[verifier::allow_in_spec]
    pub fn times(&self, a: F64, b: F64) -> F64
        returns
            self.of(Wide::Times(a, b)),
    {
        self.calc(Wide::Times(a, b))
    }

    /// `a / b`
    #[verifier::allow_in_spec]
    pub fn over(&self, a: F64, b: F64) -> F64
        returns
            self.of(Wide::Over(a, b)),
    {
        self.calc(Wide::Over(a, b))
    }

    /// The square root.
    #[verifier::allow_in_spec]
    pub fn root(&self, a: F64) -> F64
        returns
            self.of(Wide::Root(a)),
    {
        self.calc(Wide::Root(a))
    }

    /// The sine.
    #[verifier::allow_in_spec]
    pub fn sine(&self, a: F64) -> F64
        returns
            self.of(Wide::Sine(a)),
    {
        self.calc(Wide::Sine(a))
    }

    /// The exponential.
    #[verifier::allow_in_spec]
    pub fn exp(&self, a: F64) -> F64
        returns
            self.of(Wide::Exp(a)),
    {
        self.calc(Wide::Exp(a))
    }

    /// The natural logarithm.
    #[verifier::allow_in_spec]
    pub fn ln(&self, a: F64) -> F64
        returns
            self.of(Wide::Ln(a)),
    {
        self.calc(Wide::Ln(a))
    }

    /// A count.
    #[verifier::allow_in_spec]
    pub fn count(&self, n: u64) -> F64
        returns
            self.of(Wide::Count(n)),
    {
        self.calc(Wide::Count(n))
    }

    /// A single-precision number.
    #[verifier::allow_in_spec]
    pub fn widen(&self, a: F32) -> F64
        returns
            self.of(Wide::Widen(a)),
    {
        self.calc(Wide::Widen(a))
    }
}

/// A complex number.
#[derive(Debug, Clone, Copy, PartialEq, Eq, Structural)]
pub struct Complex {
    pub re: F32,
    pub im: F32,
}

impl<C: Fn(Calc) -> F32> Arith<C> {
    /// The square of a complex number's magnitude.
    #[verifier::allow_in_spec]
    pub fn norm_sqr(&self, z: Complex) -> F32
        returns
            self.plus(self.times(z.re, z.re), self.times(z.im, z.im)),
    {
        self.plus(self.times(z.re, z.re), self.times(z.im, z.im))
    }

    /// A complex number's magnitude.
    #[verifier::allow_in_spec]
    pub fn norm(&self, z: Complex) -> F32
        returns
            self.hypot(z.re, z.im),
    {
        self.hypot(z.re, z.im)
    }

    /// A complex number's angle.
    #[verifier::allow_in_spec]
    pub fn arg(&self, z: Complex) -> F32
        returns
            self.angle(z.im, z.re),
    {
        self.angle(z.im, z.re)
    }

    /// The product of two complex numbers.
    #[verifier::allow_in_spec]
    pub fn product(&self, a: Complex, b: Complex) -> Complex
        returns
            (Complex {
                re: self.minus(self.times(a.re, b.re), self.times(a.im, b.im)),
                im: self.plus(self.times(a.re, b.im), self.times(a.im, b.re)),
            }),
    {
        Complex {
            re: self.minus(self.times(a.re, b.re), self.times(a.im, b.im)),
            im: self.plus(self.times(a.re, b.im), self.times(a.im, b.re)),
        }
    }

    /// The quotient of two complex numbers.
    #[verifier::allow_in_spec]
    pub fn quotient(&self, a: Complex, b: Complex) -> Complex
        returns
            (Complex {
                re: self.over(
                    self.plus(self.times(a.re, b.re), self.times(a.im, b.im)),
                    self.norm_sqr(b),
                ),
                im: self.over(
                    self.minus(self.times(a.im, b.re), self.times(a.re, b.im)),
                    self.norm_sqr(b),
                ),
            }),
    {
        let divisor = self.norm_sqr(b);
        Complex {
            re: self.over(self.plus(self.times(a.re, b.re), self.times(a.im, b.im)), divisor),
            im: self.over(self.minus(self.times(a.im, b.re), self.times(a.re, b.im)), divisor),
        }
    }

    /// The sum of two complex numbers.
    #[verifier::allow_in_spec]
    pub fn sum(&self, a: Complex, b: Complex) -> Complex
        returns
            (Complex { re: self.plus(a.re, b.re), im: self.plus(a.im, b.im) }),
    {
        Complex { re: self.plus(a.re, b.re), im: self.plus(a.im, b.im) }
    }

    /// The difference of two complex numbers.
    #[verifier::allow_in_spec]
    pub fn difference(&self, a: Complex, b: Complex) -> Complex
        returns
            (Complex { re: self.minus(a.re, b.re), im: self.minus(a.im, b.im) }),
    {
        Complex { re: self.minus(a.re, b.re), im: self.minus(a.im, b.im) }
    }

    /// A complex number times a real one.
    #[verifier::allow_in_spec]
    pub fn scaled(&self, z: Complex, by: F32) -> Complex
        returns
            (Complex { re: self.times(z.re, by), im: self.times(z.im, by) }),
    {
        Complex { re: self.times(z.re, by), im: self.times(z.im, by) }
    }

    /// A complex number divided by a real one.
    #[verifier::allow_in_spec]
    pub fn shared(&self, z: Complex, by: F32) -> Complex
        returns
            (Complex { re: self.over(z.re, by), im: self.over(z.im, by) }),
    {
        Complex { re: self.over(z.re, by), im: self.over(z.im, by) }
    }
}

impl Complex {
    /// The complex number with its imaginary part negated.
    #[verifier::allow_in_spec]
    pub fn conj(self) -> Complex
        returns
            (Complex { re: self.re, im: self.im.spec_negated() }),
    {
        Complex { re: self.re, im: self.im.negated() }
    }
}

/// The sum of numbers from the first to the last, beginning with zero.
pub open spec fn total<C: Fn(Calc) -> F32>(m: Arith<C>, numbers: Seq<F32>) -> F32
    decreases numbers.len(),
{
    if numbers.len() == 0 {
        F32 { bits: 0 }
    } else {
        m.plus(total(m, numbers.drop_last()), numbers.last())
    }
}

/// The sum of numbers from the first to the last, beginning with zero.
pub fn sum_of<C: Fn(Calc) -> F32>(m: &Arith<C>, numbers: &[F32]) -> (sum: F32)
    ensures
        sum == total(*m, numbers@),
{
    let mut sum = F32 { bits: 0 };
    let mut i: usize = 0;
    assert(numbers@.take(0) =~= Seq::<F32>::empty());
    while i < numbers.len()
        invariant
            i <= numbers@.len(),
            sum == total(*m, numbers@.take(i as int)),
        decreases numbers@.len() - i,
    {
        sum = m.plus(sum, numbers[i]);
        i = i + 1;
        assert(numbers@.take(i as int).drop_last() =~= numbers@.take(i - 1));
    }
    assert(numbers@.take(i as int) =~= numbers@);
    sum
}

/// The squares of numbers.
pub open spec fn squares<C: Fn(Calc) -> F32>(m: Arith<C>, numbers: Seq<F32>) -> Seq<F32> {
    Seq::new(numbers.len(), |i: int| m.times(numbers[i], numbers[i]))
}

/// The squares of numbers.
pub fn squares_of<C: Fn(Calc) -> F32>(m: &Arith<C>, numbers: &[F32]) -> (squared: Vec<F32>)
    ensures
        squared@ == squares(*m, numbers@),
{
    let mut squared: Vec<F32> = Vec::new();
    let mut i: usize = 0;
    while i < numbers.len()
        invariant
            i <= numbers@.len(),
            squared@.len() == i,
            forall|k: int| 0 <= k < i ==> #[trigger] squared@[k] == m.times(numbers@[k], numbers@[k]),
        decreases numbers@.len() - i,
    {
        squared.push(m.times(numbers[i], numbers[i]));
        i = i + 1;
    }
    assert(squared@ =~= squares(*m, numbers@));
    squared
}

/// The sum of wide numbers, from the first one on.
pub open spec fn wide_total<W: Fn(Wide) -> F64>(w: WideArith<W>, numbers: Seq<F64>) -> F64
    decreases numbers.len(),
{
    if numbers.len() == 0 {
        F64 { bits: 0 }
    } else {
        w.plus(wide_total(w, numbers.drop_last()), numbers.last())
    }
}

/// The magnitudes of numbers.
pub open spec fn magnitudes(numbers: Seq<F32>) -> Seq<F32> {
    Seq::new(numbers.len(), |i: int| numbers[i].spec_abs())
}

/// The magnitudes of numbers.
pub fn magnitudes_of(numbers: &[F32]) -> (sizes: Vec<F32>)
    ensures
        sizes@ == magnitudes(numbers@),
{
    let mut sizes: Vec<F32> = Vec::new();
    let mut i: usize = 0;
    while i < numbers.len()
        invariant
            i <= numbers@.len(),
            sizes@.len() == i,
            forall|k: int| 0 <= k < i ==> #[trigger] sizes@[k] == numbers@[k].spec_abs(),
        decreases numbers@.len() - i,
    {
        sizes.push(numbers[i].abs());
        i = i + 1;
    }
    assert(sizes@ =~= magnitudes(numbers@));
    sizes
}

/// The greatest of numbers, and at least zero.
pub open spec fn greatest(numbers: Seq<F32>) -> F32
    decreases numbers.len(),
{
    if numbers.len() == 0 {
        F32 { bits: 0 }
    } else {
        greatest(numbers.drop_last()).spec_max(numbers.last())
    }
}

/// No number is above the greatest, which is one of them or zero.
pub proof fn lemma_greatest_is_the_greatest(numbers: Seq<F32>)
    ensures
        !greatest(numbers).nan(),
        (F32 { bits: 0 }).at_most(greatest(numbers)),
        forall|i: int|
            0 <= i < numbers.len() && !(#[trigger] numbers[i]).nan() ==> numbers[i].at_most(
                greatest(numbers),
            ),
        greatest(numbers) == (F32 { bits: 0 }) || exists|i: int|
            0 <= i < numbers.len() && #[trigger] numbers[i] == greatest(numbers),
    decreases numbers.len(),
{
    if numbers.len() > 0 {
        let rest = numbers.drop_last();
        let end = numbers.len() - 1;
        lemma_greatest_is_the_greatest(rest);
        assert forall|i: int| 0 <= i < numbers.len() && !(#[trigger] numbers[i]).nan() implies
            numbers[i].at_most(greatest(numbers)) by {
            if i < end {
                assert(rest[i] == numbers[i]);
            }
        }
        if greatest(numbers) == numbers.last() {
            assert(numbers[end] == greatest(numbers));
        } else if greatest(rest) != (F32 { bits: 0 }) {
            let i = choose|i: int| 0 <= i < rest.len() && #[trigger] rest[i] == greatest(rest);
            assert(numbers[i] == greatest(numbers));
        }
    }
}

/// The greatest of numbers, and at least zero.
pub fn greatest_of(numbers: &[F32]) -> (best: F32)
    ensures
        best == greatest(numbers@),
{
    let mut best = F32 { bits: 0 };
    let mut i: usize = 0;
    assert(numbers@.take(0) =~= Seq::<F32>::empty());
    while i < numbers.len()
        invariant
            i <= numbers@.len(),
            best == greatest(numbers@.take(i as int)),
        decreases numbers@.len() - i,
    {
        best = best.max(numbers[i]);
        i = i + 1;
        assert(numbers@.take(i as int).drop_last() =~= numbers@.take(i - 1));
    }
    assert(numbers@.take(i as int) =~= numbers@);
    best
}

/// A sum runs over all numbers from the first to the last: it begins with zero, and every
/// number is added once, in turn.
pub proof fn lemma_total_is_the_running_sum<C: Fn(Calc) -> F32>(
    m: Arith<C>,
    numbers: Seq<F32>,
) -> (sums: Seq<F32>)
    ensures
        sums.len() == numbers.len() + 1,
        sums[0] == (F32 { bits: 0 }),
        forall|i: int|
            0 <= i < numbers.len() ==> sums[i + 1] == m.plus(sums[i], #[trigger] numbers[i]),
        total(m, numbers) == sums[numbers.len() as int],
    decreases numbers.len(),
{
    if numbers.len() == 0 {
        seq![F32 { bits: 0 }]
    } else {
        let rest = numbers.drop_last();
        let before = lemma_total_is_the_running_sum(m, rest);
        let sums = before.push(total(m, numbers));
        assert forall|i: int| 0 <= i < numbers.len() implies sums[i + 1] == m.plus(
            sums[i],
            #[trigger] numbers[i],
        ) by {
            if i < rest.len() {
                assert(rest[i] == numbers[i]);
            }
        }
        sums
    }
}

/// Complex arithmetic is that of real and imaginary parts, and a conjugate has the
/// opposite imaginary part: twice conjugate is the number again.
pub proof fn lemma_complex_parts<C: Fn(Calc) -> F32>(m: Arith<C>, a: Complex, b: Complex, by: F32)
    ensures
        m.product(a, b).re == m.minus(m.times(a.re, b.re), m.times(a.im, b.im)),
        m.product(a, b).im == m.plus(m.times(a.re, b.im), m.times(a.im, b.re)),
        m.quotient(a, b).re == m.over(
            m.plus(m.times(a.re, b.re), m.times(a.im, b.im)),
            m.plus(m.times(b.re, b.re), m.times(b.im, b.im)),
        ),
        m.quotient(a, b).im == m.over(
            m.minus(m.times(a.im, b.re), m.times(a.re, b.im)),
            m.plus(m.times(b.re, b.re), m.times(b.im, b.im)),
        ),
        m.sum(a, b) == (Complex { re: m.plus(a.re, b.re), im: m.plus(a.im, b.im) }),
        m.difference(a, b) == (Complex { re: m.minus(a.re, b.re), im: m.minus(a.im, b.im) }),
        m.scaled(a, by) == (Complex { re: m.times(a.re, by), im: m.times(a.im, by) }),
        m.shared(a, by) == (Complex { re: m.over(a.re, by), im: m.over(a.im, by) }),
        m.norm_sqr(a) == m.plus(m.times(a.re, a.re), m.times(a.im, a.im)),
        m.norm(a) == m.hypot(a.re, a.im),
        m.arg(a) == m.angle(a.im, a.re),
        a.conj().re == a.re,
        a.conj().im.magnitude() == a.im.magnitude(),
        a.conj().im.negative() != a.im.negative(),
        a.conj().conj() == a,
{
}

} // verus!

//! Arithmetic on doubles, handed in by the caller.
//!
//! The library decides and arranges; how a sum or a logarithm of doubles is
//! rounded is up to the arithmetic it is given. Results are stated in terms of
//! that arithmetic's operations.

use vstd::prelude::*;

use crate::double::{Double, HIDDEN};

verus! {

/// Operations on doubles. Those of one argument ignore the second.
#[derive(Clone, Copy, Debug, PartialEq, Eq, Structural)]
pub enum Op {
    /// Sum.
    Plus,
    /// Difference.
    Minus,
    /// Product.
    Times,
    /// Quotient.
    Over,
    /// First argument to the power of the second.
    Power,
    /// Square root.
    Root,
    /// Exponential function.
    Exp,
    /// Natural logarithm.
    Ln,
    /// Sine.
    Sin,
    /// Cosine.
    Cos,
    /// Hyperbolic sine.
    Sinh,
    /// Hyperbolic cosine.
    Cosh,
    /// Inverse hyperbolic sine.
    Asinh,
}

/// Bit pattern of minus zero, which leaves unchanged what is added to it.
pub const MINUS_ZERO: u64 = 0x8000_0000_0000_0000;

/// Bit pattern of one half.
pub const HALF: u64 = 0x3FE0_0000_0000_0000;

/// Bit pattern of two.
pub const TWO: u64 = 0x4000_0000_0000_0000;

/// Bit pattern of the smallest positive normal number.
pub const LEAST: u64 = 0x0010_0000_0000_0000;

/// The double with this bit pattern.
pub open spec fn number(bits: u64) -> Double {
    Double { bits }
}

/// The double with this bit pattern.
#[verifier::when_used_as_spec(number)]
pub fn num(bits: u64) -> (r: Double)
    ensures
        r == number(bits),
{
    Double { bits }
}

/// What an operation is known to give; zero where nothing is known.
pub open spec fn observed<F: Fn(Op, Double, Double) -> Double>(
    apply: F,
    op: Op,
    a: Double,
    b: Double,
) -> Double {
    if exists|r: Double| call_ensures(apply, (op, a, b), r) {
        choose|r: Double| call_ensures(apply, (op, a, b), r)
    } else {
        Double { bits: 0 }
    }
}

/// Arithmetic on doubles: `apply(op, a, b)`, and the function that it computes.
pub struct Arithmetic<F> {
    /// Computes an operation.
    pub apply: F,
    /// What the operations give.
    pub model: Ghost<spec_fn(Op, Double, Double) -> Double>,
}

impl<F: Fn(Op, Double, Double) -> Double> Arithmetic<F> {
    /// The arithmetic that `apply` computes.
    pub fn new(apply: F) -> (ar: Arithmetic<F>)
        ensures
            ar.apply == apply,
            ar.model@ == (|op: Op, a: Double, b: Double| observed(apply, op, a, b)),
    {
        Arithmetic {
            apply,
            model: Ghost(|op: Op, a: Double, b: Double| observed(apply, op, a, b)),
        }
    }

    /// The result of an operation.
    pub open spec fn at(&self, op: Op, a: Double, b: Double) -> Double {
        (self.model@)(op, a, b)
    }

    /// Every operation can be computed and has one result.
    pub open spec fn total(&self) -> bool {
        &&& forall|op: Op, a: Double, b: Double| #[trigger] call_requires(self.apply, (op, a, b))
        &&& forall|op: Op, a: Double, b: Double, r: Double| #[trigger]
            call_ensures(self.apply, (op, a, b), r) ==> r == self.at(op, a, b)
    }

    /// Sum.
    pub open spec fn sum(&self, a: Double, b: Double) -> Double {
        self.at(Op::Plus, a, b)
    }

    /// Sum.
    #[verifier::when_used_as_spec(sum)]
    pub fn plus(&self, a: Double, b: Double) -> (r: Double)
        requires
            self.total(),
        ensures
            r == self.sum(a, b),
    {
        (self.apply)(Op::Plus, a, b)
    }

    /// Difference.
    pub open spec fn difference(&self, a: Double, b: Double) -> Double {
        self.at(Op::Minus, a, b)
    }

    /// Difference.
    #[verifier::when_used_as_spec(difference)]
    pub fn minus(&self, a: Double, b: Double) -> (r: Double)
        requires
            self.total(),
        ensures
            r == self.difference(a, b),
    {
        (self.apply)(Op::Minus, a, b)
    }

    /// Product.
    pub open spec fn product(&self, a: Double, b: Double) -> Double {
        self.at(Op::Times, a, b)
    }

    /// Product.
    #[verifier::when_used_as_spec(product)]
    pub fn times(&self, a: Double, b: Double) -> (r: Double)
        requires
            self.total(),
        ensures
            r == self.product(a, b),
    {
        (self.apply)(Op::Times, a, b)
    }

    /// Quotient.
    pub open spec fn quotient(&self, a: Double, b: Double) -> Double {
        self.at(Op::Over, a, b)
    }

    /// Quotient.
    #[verifier::when_used_as_spec(quotient)]
    pub fn over(&self, a: Double, b: Double) -> (r: Double)
        requires
            self.total(),
        ensures
            r == self.quotient(a, b),
    {
        (self.apply)(Op::Over, a, b)
    }

    /// First argument to the power of the second.
    pub open spec fn power(&self, a: Double, b: Double) -> Double {
        self.at(Op::Power, a, b)
    }

    /// First argument to the power of the second.
    #[verifier::when_used_as_spec(power)]
    pub fn pow(&self, a: Double, b: Double) -> (r: Double)
        requires
            self.total(),
        ensures
            r == self.power(a, b),
    {
        (self.apply)(Op::Power, a, b)
    }

    /// Square root.
    pub open spec fn root(&self, a: Double) -> Double {
        self.at(Op::Root, a, Double { bits: 0 })
    }

    /// Square root.
    #[verifier::when_used_as_spec(root)]
    pub fn sqrt(&self, a: Double) -> (r: Double)
        requires
            self.total(),
        ensures
            r == self.root(a),
    {
        (self.apply)(Op::Root, a, Double::zero())
    }

    /// Exponential function.
    pub open spec fn exponential(&self, a: Double) -> Double {
        self.at(Op::Exp, a, Double { bits: 0 })
    }

    /// Exponential function.
    #[verifier::when_used_as_spec(exponential)]
    pub fn exp(&self, a: Double) -> (r: Double)
        requires
            self.total(),
        ensures
            r == self.exponential(a),
    {
        (self.apply)(Op::Exp, a, Double::zero())
    }

    /// Natural logarithm.
    pub open spec fn logarithm(&self, a: Double) -> Double {
        self.at(Op::Ln, a, Double { bits: 0 })
    }

    /// Natural logarithm.
    #[verifier::when_used_as_spec(logarithm)]
    pub fn ln(&self, a: Double) -> (r: Double)
        requires
            self.total(),
        ensures
            r == self.logarithm(a),
    {
        (self.apply)(Op::Ln, a, Double::zero())
    }

    /// Sine.
    pub open spec fn sine(&self, a: Double) -> Double {
        self.at(Op::Sin, a, Double { bits: 0 })
    }

    /// Sine.
    #[verifier::when_used_as_spec(sine)]
    pub fn sin(&self, a: Double) -> (r: Double)
        requires
            self.total(),
        ensures
            r == self.sine(a),
    {
        (self.apply)(Op::Sin, a, Double::zero())
    }

    /// Cosine.
    pub open spec fn cosine(&self, a: Double) -> Double {
        self.at(Op::Cos, a, Double { bits: 0 })
    }

    /// Cosine.
    #[verifier::when_used_as_spec(cosine)]
    pub fn cos(&self, a: Double) -> (r: Double)
        requires
            self.total(),
        ensures
            r == self.cosine(a),
    {
        (self.apply)(Op::Cos, a, Double::zero())
    }

    /// Hyperbolic sine.
    pub open spec fn hyperbolic_sine(&self, a: Double) -> Double {
        self.at(Op::Sinh, a, Double { bits: 0 })
    }

    /// Hyperbolic sine.
    #[verifier::when_used_as_spec(hyperbolic_sine)]
    pub fn sinh(&self, a: Double) -> (r: Double)
        requires
            self.total(),
        ensures
            r == self.hyperbolic_sine(a),
    {
        (self.apply)(Op::Sinh, a, Double::zero())
    }

    /// Hyperbolic cosine.
    pub open spec fn hyperbolic_cosine(&self, a: Double) -> Double {
        self.at(Op::Cosh, a, Double { bits: 0 })
    }

    /// Hyperbolic cosine.
    #[verifier::when_used_as_spec(hyperbolic_cosine)]
    pub fn cosh(&self, a: Double) -> (r: Double)
        requires
            self.total(),
        ensures
            r == self.hyperbolic_cosine(a),
    {
        (self.apply)(Op::Cosh, a, Double::zero())
    }

    /// Inverse hyperbolic sine.
    pub open spec fn inverse_sinh(&self, a: Double) -> Double {
        self.at(Op::Asinh, a, Double { bits: 0 })
    }

    /// Inverse hyperbolic sine.
    #[verifier::when_used_as_spec(inverse_sinh)]
    pub fn asinh(&self, a: Double) -> (r: Double)
        requires
            self.total(),
        ensures
            r == self.inverse_sinh(a),
    {
        (self.apply)(Op::Asinh, a, Double::zero())
    }

    /// Square.
    pub open spec fn squared(&self, a: Double) -> Double {
        self.product(a, a)
    }

    /// Square.
    #[verifier::when_used_as_spec(squared)]
    pub fn square(&self, a: Double) -> (r: Double)
        requires
            self.total(),
        ensures
            r == self.squared(a),
    {
        self.times(a, a)
    }

    /// Square of a radius, where there is one.
    pub open spec fn squared_radius(&self, radius: Option<Double>) -> Option<Double> {
        match radius {
            Some(r) => Some(self.squared(r)),
            None => None,
        }
    }

    /// Square of a radius, where there is one.
    #[verifier::when_used_as_spec(squared_radius)]
    pub fn square_radius(&self, radius: Option<Double>) -> (r: Option<Double>)
        requires
            self.total(),
        ensures
            r == self.squared_radius(radius),
    {
        match radius {
            Some(r) => Some(self.square(r)),
            None => None,
        }
    }

    /// Sum of a list, from the left, starting from minus zero.
    pub open spec fn total_of(&self, xs: Seq<Double>) -> Double
        decreases xs.len(),
    {
        if xs.len() == 0 {
            number(MINUS_ZERO)
        } else {
            self.sum(self.total_of(xs.drop_last()), xs.last())
        }
    }

    /// Sum of a list, from the left, starting from zero.
    pub open spec fn accumulated(&self, xs: Seq<Double>) -> Double
        decreases xs.len(),
    {
        if xs.len() == 0 {
            Double { bits: 0 }
        } else {
            self.sum(self.accumulated(xs.drop_last()), xs.last())
        }
    }

    /// Sum of a list, from the left, starting from zero.
    pub fn accumulate(&self, xs: &Vec<Double>) -> (r: Double)
        requires
            self.total(),
        ensures
            r == self.accumulated(xs@),
    {
        let mut s: Double = Double::zero();
        for i in 0..xs.len()
            invariant
                self.total(),
                s == self.accumulated(xs@.take(i as int)),
        {
            assert(xs@.take(i + 1).drop_last() =~= xs@.take(i as int));
            s = self.plus(s, xs[i]);
        }
        assert(xs@.take(xs.len() as int) =~= xs@);
        s
    }

    /// Sum of a list, from the left, starting from minus zero.
    pub fn add_up(&self, xs: &Vec<Double>) -> (r: Double)
        requires
            self.total(),
        ensures
            r == self.total_of(xs@),
    {
        let mut s: Double = num(MINUS_ZERO);
        for i in 0..xs.len()
            invariant
                self.total(),
                s == self.total_of(xs@.take(i as int)),
        {
            assert(xs@.take(i + 1).drop_last() =~= xs@.take(i as int));
            s = self.plus(s, xs[i]);
        }
        assert(xs@.take(xs.len() as int) =~= xs@);
        s
    }

    /// Sum of the products of two lists, from the left, starting from `start`.
    pub open spec fn dot_from(&self, start: Double, a: Seq<Double>, b: Seq<Double>, n: int) -> Double
        decreases n,
    {
        if n <= 0 {
            start
        } else {
            self.sum(self.dot_from(start, a, b, n - 1), self.product(a[n - 1], b[n - 1]))
        }
    }

    /// Sum of the products of the first `n` elements of two lists, from the
    /// left, starting from `start`.
    pub fn dot(&self, start: Double, a: &Vec<Double>, b: &Vec<Double>, n: usize) -> (r: Double)
        requires
            self.total(),
            n <= a.len(),
            n <= b.len(),
        ensures
            r == self.dot_from(start, a@, b@, n as int),
    {
        let mut s: Double = start;
        for i in 0..n
            invariant
                self.total(),
                n <= a.len(),
                n <= b.len(),
                s == self.dot_from(start, a@, b@, i as int),
        {
            s = self.plus(s, self.times(a[i], b[i]));
        }
        s
    }

    /// The arithmetic is that of IEEE 754 as far as distances go: NaN spreads,
    /// squares and sums of them are not negative, a sum is no lesser than its
    /// terms, and points farther out along a line are no nearer.
    pub open spec fn ieee(&self) -> bool {
        &&& self.total()
        &&& forall|a: Double, b: Double|
            #![trigger self.difference(a, b)]
            a.nan() || b.nan() ==> self.difference(a, b).nan()
        &&& forall|a: Double, b: Double|
            #![trigger self.sum(a, b)]
            a.nan() || b.nan() ==> self.sum(a, b).nan()
        &&& forall|a: Double|
            #![trigger self.squared(a)]
            if a.nan() {
                self.squared(a).nan()
            } else {
                self.squared(a).nan() || !self.squared(a).negative()
            }
        &&& forall|a: Double, b: Double|
            #![trigger self.sum(a, b)]
            !a.nan() && !b.nan() && !a.negative() && !b.negative() ==> self.sum(a, b).nan() || (
            !self.sum(a, b).negative() && a.at_most(self.sum(a, b)) && b.at_most(self.sum(a, b)))
        &&& forall|t: Double, m: Double, i: Double|
            #![trigger self.squared(self.difference(t, m)), self.squared(self.difference(i, t))]
            m.finite() && ((t.at_most(m) && m.at_most(i)) || (i.at_most(m) && m.at_most(t)))
                ==> self.squared(self.difference(i, t)).nan() || self.squared(
                self.difference(t, m),
            ).at_most(self.squared(self.difference(i, t)))
    }

    /// A distance is NaN or no lesser than its part along any axis, and not
    /// negative.
    pub proof fn lemma_gap2(&self, p: Seq<Double>, q: Seq<Double>, n: int, axis: int)
        requires
            self.ieee(),
            0 <= axis < n,
        ensures
            self.gap2(p, q, n).nan() || (!self.gap2(p, q, n).negative() && self.squared(
                self.difference(p[axis], q[axis]),
            ).at_most(self.gap2(p, q, n))),
        decreases n,
    {
        let rest = self.gap2(p, q, n - 1);
        let diff = self.difference(p[n - 1], q[n - 1]);
        let last = self.squared(diff);
        assert(self.gap2(p, q, n) == self.sum(rest, last));
        if n > 1 {
            self.lemma_gap2(p, q, n - 1, if axis < n - 1 { axis } else { 0 });
        } else {
            assert(rest == (Double { bits: 0 }));
        }
        assert(last.nan() || !last.negative());
        if !rest.nan() && !last.nan() {
            let all = self.sum(rest, last);
            assert(all.nan() || (!all.negative() && rest.at_most(all) && last.at_most(all)));
        }
    }

    /// A distance is NaN or not negative.
    pub proof fn lemma_gap2_sign(&self, p: Seq<Double>, q: Seq<Double>, n: int)
        requires
            self.ieee(),
        ensures
            self.gap2(p, q, n).nan() || !self.gap2(p, q, n).negative(),
    {
        if n > 0 {
            self.lemma_gap2(p, q, n, 0);
        }
    }

    /// A distance along which some coordinate is NaN is NaN.
    pub proof fn lemma_gap2_nan(&self, p: Seq<Double>, q: Seq<Double>, n: int, axis: int)
        requires
            self.ieee(),
            0 <= axis < n,
            p[axis].nan() || q[axis].nan(),
        ensures
            self.gap2(p, q, n).nan(),
        decreases n,
    {
        if axis < n - 1 {
            self.lemma_gap2_nan(p, q, n - 1, axis);
        } else {
            assert(self.difference(p[axis], q[axis]).nan());
            assert(self.squared(self.difference(p[axis], q[axis])).nan());
        }
    }

    /// Sum of squared differences of the first `n` coordinates.
    pub open spec fn gap2(&self, p: Seq<Double>, q: Seq<Double>, n: int) -> Double
        decreases n,
    {
        if n <= 0 {
            Double { bits: 0 }
        } else {
            self.sum(
                self.gap2(p, q, n - 1),
                self.squared(self.difference(p[n - 1], q[n - 1])),
            )
        }
    }

    /// Squared Euclidean distance between two points.
    pub open spec fn distance2<const D: usize>(&self, p: [Double; D], q: [Double; D]) -> Double {
        self.gap2(p@, q@, D as int)
    }

    /// Squared Euclidean distance between two points.
    pub fn dist2<const D: usize>(&self, p: &[Double; D], q: &[Double; D]) -> (r: Double)
        requires
            self.total(),
        ensures
            r == self.distance2(*p, *q),
    {
        let mut s: Double = Double::zero();
        for d in 0..D
            invariant
                self.total(),
                s == self.gap2(p@, q@, d as int),
        {
            s = self.plus(s, self.square(self.minus(p[d], q[d])));
        }
        s
    }

    /// Separation of two points, by coordinate.
    pub open spec fn separation(&self, p: Seq<Double>, q: Seq<Double>) -> Seq<Double> {
        Seq::new(p.len(), |d: int| self.difference(p[d], q[d]))
    }

    /// Separation vector between two points.
    pub fn sep<const D: usize>(&self, p: &[Double; D], q: &[Double; D]) -> (r: [Double; D])
        requires
            self.total(),
        ensures
            r@ == self.separation(p@, q@),
    {
        let mut r: [Double; D] = *p;
        for d in 0..D
            invariant
                self.total(),
                forall|i: int| 0 <= i < d ==> r@[i] == self.difference(p@[i], q@[i]),
        {
            r[d] = self.minus(p[d], q[d]);
        }
        assert(r@ =~= self.separation(p@, q@));
        r
    }

    /// Sum divided by the number of elements.
    pub open spec fn average_of(&self, xs: Seq<Double>) -> Double {
        self.quotient(self.total_of(xs), Double::count(xs.len()))
    }

    /// Sum divided by the number of elements.
    pub fn mean(&self, xs: &Vec<Double>) -> (r: Double)
        requires
            self.total(),
            xs.len() < 2 * HIDDEN,
        ensures
            r == self.average_of(xs@),
    {
        self.over(self.add_up(xs), Double::from_count(xs.len()))
    }

    /// Sum of squared differences from `m`, starting from minus zero.
    pub open spec fn scatter(&self, xs: Seq<Double>, m: Double) -> Double
        decreases xs.len(),
    {
        if xs.len() == 0 {
            number(MINUS_ZERO)
        } else {
            self.sum(
                self.scatter(xs.drop_last(), m),
                self.squared(self.difference(xs.last(), m)),
            )
        }
    }

    /// Mean squared difference from `m`.
    pub open spec fn variance_of(&self, xs: Seq<Double>, m: Double) -> Double {
        self.quotient(self.scatter(xs, m), Double::count(xs.len()))
    }

    /// Mean squared difference from `m`.
    pub fn variance(&self, xs: &Vec<Double>, m: Double) -> (r: Double)
        requires
            self.total(),
            xs.len() < 2 * HIDDEN,
        ensures
            r == self.variance_of(xs@, m),
    {
        let mut s: Double = num(MINUS_ZERO);
        for i in 0..xs.len()
            invariant
                self.total(),
                s == self.scatter(xs@.take(i as int), m),
        {
            assert(xs@.take(i + 1).drop_last() =~= xs@.take(i as int));
            s = self.plus(s, self.square(self.minus(xs[i], m)));
        }
        assert(xs@.take(xs.len() as int) =~= xs@);
        self.over(s, Double::from_count(xs.len()))
    }
}

} // verus!

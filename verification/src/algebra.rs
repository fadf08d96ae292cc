//! Algebra over an arithmetic without rounding: differences, quotients and sums of lists.

use vstd::prelude::*;

use crate::arith::{num, Arithmetic, Op};
use crate::double::{Double, ONE};
use crate::exact::{
    all_numbers, closed, distributes, exact, lemma_span_closed, plus_associates, plus_shuffles,
    span_sum, times_associates, times_cancels, triple_law, Numbers,
};

verus! {

/// What was added can be taken away, and what makes up a number is its difference.
pub(crate) proof fn lemma_minus_undoes<F: Fn(Op, Double, Double) -> Double>(
    ar: Arithmetic<F>,
    c: Numbers,
    a: Double,
    b: Double,
)
    requires
        exact(ar, c),
        c(a),
        c(b),
    ensures
        ar.minus(ar.plus(a, b), b) == a,
        ar.minus(ar.plus(b, a), b) == a,
        ar.plus(b, ar.minus(a, b)) == a,
        c(ar.plus(a, b)),
        c(ar.minus(a, b)),
{
    closed(ar, c, a, b);
    let s = ar.plus(a, b);
    closed(ar, c, s, b);
    closed(ar, c, b, ar.minus(a, b));
    assert(triple_law(ar, c, ar.minus(s, b), a, b));
}

/// `x + b == a` makes `x` the difference of `a` and `b`.
pub(crate) proof fn lemma_difference_is<F: Fn(Op, Double, Double) -> Double>(
    ar: Arithmetic<F>,
    c: Numbers,
    x: Double,
    a: Double,
    b: Double,
)
    requires
        exact(ar, c),
        c(x),
        c(a),
        c(b),
        ar.plus(x, b) == a,
    ensures
        x == ar.minus(a, b),
{
    lemma_minus_undoes(ar, c, x, b);
}

/// Products distribute over differences.
pub(crate) proof fn lemma_times_minus<F: Fn(Op, Double, Double) -> Double>(
    ar: Arithmetic<F>,
    c: Numbers,
    k: Double,
    a: Double,
    b: Double,
)
    requires
        exact(ar, c),
        c(k),
        c(a),
        c(b),
    ensures
        ar.times(k, ar.minus(a, b)) == ar.minus(ar.times(k, a), ar.times(k, b)),
        c(ar.times(k, a)),
        c(ar.times(k, b)),
        c(ar.times(k, ar.minus(a, b))),
{
    closed(ar, c, a, b);
    closed(ar, c, k, a);
    closed(ar, c, k, b);
    let d = ar.minus(a, b);
    closed(ar, c, k, d);
    distributes(ar, c, k, d, b);
    lemma_difference_is(ar, c, ar.times(k, d), ar.times(k, a), ar.times(k, b));
}

/// `x b == a` makes `x` the quotient of `a` and `b`.
pub(crate) proof fn lemma_quotient_is<F: Fn(Op, Double, Double) -> Double>(
    ar: Arithmetic<F>,
    c: Numbers,
    x: Double,
    a: Double,
    b: Double,
)
    requires
        exact(ar, c),
        c(x),
        c(a),
        c(b),
        b != num(0),
        ar.times(x, b) == a,
    ensures
        x == ar.over(a, b),
{
    closed(ar, c, a, b);
    times_cancels(ar, c, x, ar.over(a, b), b);
}

/// A multiple of a quotient is the quotient of the multiple.
pub(crate) proof fn lemma_times_over<F: Fn(Op, Double, Double) -> Double>(
    ar: Arithmetic<F>,
    c: Numbers,
    k: Double,
    a: Double,
    b: Double,
)
    requires
        exact(ar, c),
        c(k),
        c(a),
        c(b),
        b != num(0),
    ensures
        ar.times(k, ar.over(a, b)) == ar.over(ar.times(k, a), b),
        c(ar.over(a, b)),
        c(ar.times(k, ar.over(a, b))),
{
    closed(ar, c, a, b);
    let q = ar.over(a, b);
    closed(ar, c, k, q);
    closed(ar, c, k, a);
    times_associates(ar, c, k, q, b);
    lemma_quotient_is(ar, c, ar.times(k, q), ar.times(k, a), b);
}

/// Products of two numbers that are not zero are not zero.
pub(crate) proof fn lemma_product_not_zero<F: Fn(Op, Double, Double) -> Double>(
    ar: Arithmetic<F>,
    c: Numbers,
    a: Double,
    b: Double,
)
    requires
        exact(ar, c),
        c(a),
        c(b),
        a != num(0),
        b != num(0),
    ensures
        ar.times(a, b) != num(0),
        c(ar.times(a, b)),
{
    closed(ar, c, a, b);
    closed(ar, c, b, num(0));
    if ar.times(a, b) == num(0) {
        times_cancels(ar, c, a, num(0), b);
    }
}

/// A common factor cancels in a quotient.
pub(crate) proof fn lemma_common_factor<F: Fn(Op, Double, Double) -> Double>(
    ar: Arithmetic<F>,
    c: Numbers,
    k: Double,
    a: Double,
    b: Double,
)
    requires
        exact(ar, c),
        c(k),
        c(a),
        c(b),
        k != num(0),
        b != num(0),
    ensures
        ar.over(ar.times(k, a), ar.times(k, b)) == ar.over(a, b),
        c(ar.over(a, b)),
{
    lemma_product_not_zero(ar, c, k, b);
    closed(ar, c, a, b);
    closed(ar, c, k, a);
    closed(ar, c, k, b);
    let q = ar.over(a, b);
    closed(ar, c, q, k);
    closed(ar, c, k, q);
    // q (k b) = (q k) b = k (q b) = k a.
    times_associates(ar, c, q, k, b);
    times_associates(ar, c, k, q, b);
    lemma_quotient_is(ar, c, q, ar.times(k, a), ar.times(k, b));
}

/// `(k a) (k b) == (k k) (a b)`.
pub(crate) proof fn lemma_squares<F: Fn(Op, Double, Double) -> Double>(
    ar: Arithmetic<F>,
    c: Numbers,
    k: Double,
    l: Double,
    a: Double,
    b: Double,
)
    requires
        exact(ar, c),
        c(k),
        c(l),
        c(a),
        c(b),
    ensures
        ar.times(ar.times(k, a), ar.times(l, b)) == ar.times(ar.times(k, l), ar.times(a, b)),
        c(ar.times(ar.times(k, a), ar.times(l, b))),
{
    closed(ar, c, k, a);
    closed(ar, c, l, b);
    closed(ar, c, k, l);
    closed(ar, c, a, b);
    closed(ar, c, a, l);
    closed(ar, c, ar.times(k, a), ar.times(l, b));
    times_associates(ar, c, k, a, ar.times(l, b));
    times_associates(ar, c, a, l, b);
    times_associates(ar, c, l, a, b);
    times_associates(ar, c, k, l, ar.times(a, b));
}

/// What a sum of rows makes is the sum of what they make.
pub(crate) proof fn lemma_rows_added<F: Fn(Op, Double, Double) -> Double>(
    ar: Arithmetic<F>,
    c: Numbers,
    a: Seq<Double>,
    b: Seq<Double>,
    sum: Seq<Double>,
    x: Seq<Double>,
    hi: int,
)
    requires
        exact(ar, c),
        all_numbers(c, a),
        all_numbers(c, b),
        all_numbers(c, x),
        0 <= hi <= a.len(),
        hi <= b.len(),
        hi <= x.len(),
        forall|i: int| 0 <= i < hi ==> #[trigger] sum[i] == ar.plus(a[i], b[i]),
    ensures
        span_sum(ar, sum, x, 0, hi) == ar.plus(
            span_sum(ar, a, x, 0, hi),
            span_sum(ar, b, x, 0, hi),
        ),
    decreases hi,
{
    closed(ar, c, num(0), num(0));
    if hi > 0 {
        let k = hi - 1;
        lemma_rows_added(ar, c, a, b, sum, x, k);
        assert(c(a[k]) && c(b[k]) && c(x[k]));
        assert(sum[k] == ar.plus(a[k], b[k]));
        closed(ar, c, a[k], b[k]);
        closed(ar, c, ar.plus(a[k], b[k]), x[k]);
        closed(ar, c, a[k], x[k]);
        closed(ar, c, b[k], x[k]);
        distributes(ar, c, x[k], a[k], b[k]);
        lemma_span_closed(ar, c, a, x, 0, k);
        lemma_span_closed(ar, c, b, x, 0, k);
        plus_shuffles(
            ar,
            c,
            span_sum(ar, a, x, 0, k),
            span_sum(ar, b, x, 0, k),
            ar.times(a[k], x[k]),
            ar.times(b[k], x[k]),
        );
    }
}

/// Adding in the other order.
pub(crate) proof fn lemma_plus_swaps<F: Fn(Op, Double, Double) -> Double>(
    ar: Arithmetic<F>,
    c: Numbers,
    a: Double,
    b: Double,
    d: Double,
)
    requires
        exact(ar, c),
        c(a),
        c(b),
        c(d),
    ensures
        ar.plus(ar.plus(a, b), d) == ar.plus(ar.plus(a, d), b),
        c(ar.plus(ar.plus(a, b), d)),
{
    closed(ar, c, a, b);
    closed(ar, c, a, d);
    closed(ar, c, b, d);
    closed(ar, c, ar.plus(a, b), d);
    plus_associates(ar, c, a, b, d);
    plus_associates(ar, c, a, d, b);
}

/// One more number in place of a zero adds that number to a sum.
pub(crate) proof fn lemma_sum_with<F: Fn(Op, Double, Double) -> Double>(
    ar: Arithmetic<F>,
    c: Numbers,
    xs: Seq<Double>,
    p: int,
    v: Double,
)
    requires
        exact(ar, c),
        all_numbers(c, xs),
        0 <= p < xs.len(),
        xs[p] == num(0),
        c(v),
    ensures
        ar.accumulated(xs.update(p, v)) == ar.plus(ar.accumulated(xs), v),
        c(ar.accumulated(xs)),
    decreases xs.len(),
{
    let ys = xs.update(p, v);
    let x0 = xs.drop_last();
    let y0 = ys.drop_last();
    assert(c(xs[xs.len() - 1]));
    assert forall|i: int| 0 <= i < x0.len() implies c(#[trigger] x0[i]) by {
        assert(c(xs[i]));
    }
    crate::exact_kriging::lemma_total_closed(ar, c, x0);
    crate::exact_kriging::lemma_total_closed(ar, c, xs);
    let s = ar.accumulated(x0);
    closed(ar, c, s, v);
    closed(ar, c, s, xs.last());
    if p == xs.len() - 1 {
        assert(y0 =~= x0);
        closed(ar, c, s, num(0));
    } else {
        assert(y0 =~= x0.update(p, v));
        assert(ys.last() == xs.last());
        lemma_sum_with(ar, c, x0, p, v);
        lemma_plus_swaps(ar, c, s, v, xs.last());
    }
}

/// The double of one half is one.
pub open spec fn halves<F: Fn(Op, Double, Double) -> Double>(ar: Arithmetic<F>, c: Numbers) -> bool {
    &&& c(num(crate::arith::HALF))
    &&& ar.plus(num(crate::arith::HALF), num(crate::arith::HALF)) == num(ONE)
}

/// Two halves of a number make it.
pub(crate) proof fn lemma_two_halves<F: Fn(Op, Double, Double) -> Double>(
    ar: Arithmetic<F>,
    c: Numbers,
    a: Double,
)
    requires
        exact(ar, c),
        halves(ar, c),
        c(a),
    ensures
        ({
            let h = ar.times(num(crate::arith::HALF), a);
            c(h) && ar.plus(h, h) == a
        }),
{
    let half = num(crate::arith::HALF);
    closed(ar, c, half, a);
    closed(ar, c, half, half);
    closed(ar, c, a, num(ONE));
    distributes(ar, c, a, half, half);
}

} // verus!

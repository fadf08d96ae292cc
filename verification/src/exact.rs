//! Elimination over an arithmetic without rounding: what it solves is the system.

use vstd::prelude::*;

use crate::arith::{num, Arithmetic, MINUS_ZERO, Op};
use crate::double::{Double, ONE};
use crate::linalg::{
    backward, eliminate, eliminated, exchanged, exchanges_of, forward_unit, less_products, pivot_of,
    pivots, reduced, regular, rows_swapped, scale_of, solution, TINY_PIVOT,
};

verus! {

/// Doubles that an arithmetic computes with.
pub type Numbers = spec_fn(Double) -> bool;

/// What holds of two numbers: sums, differences, products and quotients are numbers,
/// sums and products commute, differences and quotients undo them.
pub open spec fn pair_law<F: Fn(Op, Double, Double) -> Double>(
    ar: Arithmetic<F>,
    c: Numbers,
    a: Double,
    b: Double,
) -> bool {
    c(a) && c(b) ==> {
        &&& c(ar.plus(a, b))
        &&& c(ar.minus(a, b))
        &&& c(ar.times(a, b))
        &&& ar.plus(a, b) == ar.plus(b, a)
        &&& ar.times(a, b) == ar.times(b, a)
        &&& ar.plus(ar.minus(a, b), b) == a
        &&& b != num(0) ==> c(ar.over(a, b)) && ar.times(ar.over(a, b), b) == a
        &&& ar.plus(a, num(0)) == a
        &&& ar.times(a, num(ONE)) == a
        &&& ar.times(a, num(0)) == num(0)
        &&& a.equals(num(0)) ==> a == num(0)
    }
}

/// What holds of three numbers: sums and products associate, products distribute over
/// sums, and what is added, or multiplied by and not zero, cancels.
pub open spec fn triple_law<F: Fn(Op, Double, Double) -> Double>(
    ar: Arithmetic<F>,
    c: Numbers,
    a: Double,
    b: Double,
    d: Double,
) -> bool {
    c(a) && c(b) && c(d) ==> {
        &&& ar.plus(ar.plus(a, b), d) == ar.plus(a, ar.plus(b, d))
        &&& ar.times(ar.times(a, b), d) == ar.times(a, ar.times(b, d))
        &&& ar.times(a, ar.plus(b, d)) == ar.plus(ar.times(a, b), ar.times(a, d))
        &&& ar.plus(a, d) == ar.plus(b, d) ==> a == b
        &&& d != num(0) && ar.times(a, d) == ar.times(b, d) ==> a == b
    }
}

/// A pivot that is large enough for a scale is not zero.
pub open spec fn pivot_law<F: Fn(Op, Double, Double) -> Double>(ar: Arithmetic<F>, s: Double) -> bool {
    s.positive() ==> ar.times(num(TINY_PIVOT), s).positive()
}

/// What is added to minus zero stays as it is.
pub open spec fn start_law<F: Fn(Op, Double, Double) -> Double>(
    ar: Arithmetic<F>,
    c: Numbers,
    a: Double,
) -> bool {
    c(a) ==> ar.plus(num(MINUS_ZERO), a) == a
}

/// The arithmetic does not round on these numbers: they are a field under its
/// operations, with one zero, sums can start from minus zero, and a pivot that is large
/// enough is not zero.
pub open spec fn exact<F: Fn(Op, Double, Double) -> Double>(ar: Arithmetic<F>, c: Numbers) -> bool {
    &&& c(num(0))
    &&& c(num(ONE))
    &&& forall|a: Double, b: Double| #[trigger] pair_law(ar, c, a, b)
    &&& forall|a: Double, b: Double, d: Double| #[trigger] triple_law(ar, c, a, b, d)
    &&& forall|a: Double| #[trigger] start_law(ar, c, a)
    &&& forall|s: Double| #[trigger] pivot_law(ar, s)
}

/// Zero and one.
pub open spec fn is_bit(a: Double) -> bool {
    a == num(0) || a == num(ONE)
}

/// The arithmetic of zero and one in which one and one make zero.
pub open spec fn parity(op: Op, a: Double, b: Double) -> Double {
    match op {
        Op::Plus | Op::Minus => if (a == num(ONE)) == (b == num(ONE)) {
            num(0)
        } else {
            num(ONE)
        },
        Op::Times => if a == num(0) || b == num(0) {
            num(0)
        } else {
            num(ONE)
        },
        _ => a,
    }
}

/// There are arithmetics that do not round, with exact roots.
pub proof fn some_arithmetic_is_exact<F: Fn(Op, Double, Double) -> Double>(apply: F)
    ensures
        exact(
            (Arithmetic { apply, model: Ghost(|op: Op, a: Double, b: Double| parity(op, a, b)) }),
            |a: Double| is_bit(a),
        ),
        crate::exact_definite::roots_exact(
            (Arithmetic { apply, model: Ghost(|op: Op, a: Double, b: Double| parity(op, a, b)) }),
            |a: Double| is_bit(a),
        ),
{
}

proof fn plus_commutes<F: Fn(Op, Double, Double) -> Double>(ar: Arithmetic<F>, c: Numbers, a: Double, b: Double)
    requires
        exact(ar, c),
        c(a),
        c(b),
    ensures
        c(ar.plus(a, b)),
        ar.plus(a, b) == ar.plus(b, a),
{
    assert(pair_law(ar, c, a, b));
}

/// Sums associate.
pub proof fn plus_associates<F: Fn(Op, Double, Double) -> Double>(
    ar: Arithmetic<F>,
    c: Numbers,
    a: Double,
    b: Double,
    d: Double,
)
    requires
        exact(ar, c),
        c(a),
        c(b),
        c(d),
    ensures
        ar.plus(ar.plus(a, b), d) == ar.plus(a, ar.plus(b, d)),
{
    assert(triple_law(ar, c, a, b, d));
}

/// Sums and products of numbers are numbers, and what is taken away can be added.
pub proof fn closed<F: Fn(Op, Double, Double) -> Double>(ar: Arithmetic<F>, c: Numbers, a: Double, b: Double)
    requires
        exact(ar, c),
        c(a),
        c(b),
    ensures
        c(num(0)),
        c(num(ONE)),
        c(ar.plus(a, b)),
        c(ar.minus(a, b)),
        c(ar.times(a, b)),
        b != num(0) ==> c(ar.over(a, b)) && ar.times(ar.over(a, b), b) == a,
        ar.plus(ar.minus(a, b), b) == a,
        ar.plus(a, b) == ar.plus(b, a),
        ar.times(a, b) == ar.times(b, a),
        ar.plus(a, num(0)) == a,
        ar.plus(num(0), a) == a,
        ar.times(a, num(ONE)) == a,
        ar.times(a, num(0)) == num(0),
        ar.times(num(0), a) == num(0),
        ar.times(num(ONE), a) == a,
        a.equals(num(0)) ==> a == num(0),
{
    assert(pair_law(ar, c, a, b));
    assert(pair_law(ar, c, num(0), a));
    assert(pair_law(ar, c, num(ONE), a));
}

proof fn plus_cancels<F: Fn(Op, Double, Double) -> Double>(
    ar: Arithmetic<F>,
    c: Numbers,
    a: Double,
    b: Double,
    d: Double,
)
    requires
        exact(ar, c),
        c(a),
        c(b),
        c(d),
        ar.plus(a, d) == ar.plus(b, d),
    ensures
        a == b,
{
    assert(triple_law(ar, c, a, b, d));
}

/// What is multiplied by, and not zero, cancels.
pub proof fn times_cancels<F: Fn(Op, Double, Double) -> Double>(
    ar: Arithmetic<F>,
    c: Numbers,
    a: Double,
    b: Double,
    d: Double,
)
    requires
        exact(ar, c),
        c(a),
        c(b),
        c(d),
        d != num(0),
        ar.times(a, d) == ar.times(b, d),
    ensures
        a == b,
{
    assert(triple_law(ar, c, a, b, d));
}

/// Products distribute over sums.
pub proof fn distributes<F: Fn(Op, Double, Double) -> Double>(
    ar: Arithmetic<F>,
    c: Numbers,
    a: Double,
    b: Double,
    d: Double,
)
    requires
        exact(ar, c),
        c(a),
        c(b),
        c(d),
    ensures
        ar.times(a, ar.plus(b, d)) == ar.plus(ar.times(a, b), ar.times(a, d)),
{
    assert(triple_law(ar, c, a, b, d));
}

/// Products associate.
pub proof fn times_associates<F: Fn(Op, Double, Double) -> Double>(
    ar: Arithmetic<F>,
    c: Numbers,
    a: Double,
    b: Double,
    d: Double,
)
    requires
        exact(ar, c),
        c(a),
        c(b),
        c(d),
    ensures
        ar.times(ar.times(a, b), d) == ar.times(a, ar.times(b, d)),
{
    assert(triple_law(ar, c, a, b, d));
}

/// `(a + b) + (x + y) == (a + x) + (b + y)`.
pub proof fn plus_shuffles<F: Fn(Op, Double, Double) -> Double>(
    ar: Arithmetic<F>,
    c: Numbers,
    a: Double,
    b: Double,
    x: Double,
    y: Double,
)
    requires
        exact(ar, c),
        c(a),
        c(b),
        c(x),
        c(y),
    ensures
        ar.plus(ar.plus(a, b), ar.plus(x, y)) == ar.plus(ar.plus(a, x), ar.plus(b, y)),
{
    plus_commutes(ar, c, x, y);
    plus_commutes(ar, c, b, y);
    plus_commutes(ar, c, b, x);
    plus_associates(ar, c, a, b, ar.plus(x, y));
    plus_associates(ar, c, b, x, y);
    plus_associates(ar, c, x, b, y);
    plus_associates(ar, c, a, x, ar.plus(b, y));
}

/// Sum of the products of `row` and `x` at positions `lo` to `hi - 1`.
pub open spec fn span_sum<F: Fn(Op, Double, Double) -> Double>(
    ar: Arithmetic<F>,
    row: Seq<Double>,
    x: Seq<Double>,
    lo: int,
    hi: int,
) -> Double
    decreases hi - lo,
{
    if hi <= lo {
        num(0)
    } else {
        ar.plus(span_sum(ar, row, x, lo, hi - 1), ar.times(row[hi - 1], x[hi - 1]))
    }
}

/// A dot product that starts from minus zero is the one that starts from zero.
pub proof fn lemma_dot_start<F: Fn(Op, Double, Double) -> Double>(
    ar: Arithmetic<F>,
    c: Numbers,
    w: Seq<Double>,
    v: Seq<Double>,
    n: int,
)
    requires
        exact(ar, c),
        all_numbers(c, w),
        all_numbers(c, v),
        0 < n <= w.len(),
        n <= v.len(),
    ensures
        ar.dot_from(num(MINUS_ZERO), w, v, n) == ar.dot_from(num(0), w, v, n),
    decreases n,
{
    reveal_with_fuel(Arithmetic::dot_from, 2);
    if n > 1 {
        lemma_dot_start(ar, c, w, v, n - 1);
    } else {
        assert(c(w[0]) && c(v[0]));
        closed(ar, c, w[0], v[0]);
        let t = ar.times(w[0], v[0]);
        closed(ar, c, t, t);
        assert(start_law(ar, c, t));
    }
}

/// A sum that starts from minus zero is the one that starts from zero.
pub proof fn lemma_total_start<F: Fn(Op, Double, Double) -> Double>(
    ar: Arithmetic<F>,
    c: Numbers,
    xs: Seq<Double>,
)
    requires
        exact(ar, c),
        all_numbers(c, xs),
        xs.len() > 0,
    ensures
        ar.total_of(xs) == ar.accumulated(xs),
    decreases xs.len(),
{
    reveal_with_fuel(Arithmetic::total_of, 2);
    reveal_with_fuel(Arithmetic::accumulated, 2);
    if xs.len() > 1 {
        assert forall|i: int| 0 <= i < xs.drop_last().len() implies c(
            #[trigger] xs.drop_last()[i],
        ) by {
            assert(c(xs[i]));
        }
        lemma_total_start(ar, c, xs.drop_last());
    } else {
        assert(c(xs[0]));
        closed(ar, c, xs[0], xs[0]);
        assert(start_law(ar, c, xs[0]));
    }
}

/// All are numbers.
pub open spec fn all_numbers(c: Numbers, xs: Seq<Double>) -> bool {
    forall|i: int| 0 <= i < xs.len() ==> c(#[trigger] xs[i])
}

/// A sum of products of numbers is a number.
pub proof fn lemma_span_closed<F: Fn(Op, Double, Double) -> Double>(
    ar: Arithmetic<F>,
    c: Numbers,
    row: Seq<Double>,
    x: Seq<Double>,
    lo: int,
    hi: int,
)
    requires
        exact(ar, c),
        all_numbers(c, row),
        all_numbers(c, x),
        0 <= lo,
        hi <= row.len(),
        hi <= x.len(),
    ensures
        c(span_sum(ar, row, x, lo, hi)),
    decreases hi - lo,
{
    if hi > lo {
        lemma_span_closed(ar, c, row, x, lo, hi - 1);
        assert(c(row[hi - 1]) && c(x[hi - 1]));
        closed(ar, c, row[hi - 1], x[hi - 1]);
        closed(
            ar,
            c,
            span_sum(ar, row, x, lo, hi - 1),
            ar.times(row[hi - 1], x[hi - 1]),
        );
    }
}

/// Only the positions summed over matter.
pub proof fn lemma_span_agrees<F: Fn(Op, Double, Double) -> Double>(
    ar: Arithmetic<F>,
    r1: Seq<Double>,
    r2: Seq<Double>,
    x1: Seq<Double>,
    x2: Seq<Double>,
    lo: int,
    hi: int,
)
    requires
        forall|j: int| lo <= j < hi ==> #[trigger] r1[j] == r2[j],
        forall|j: int| lo <= j < hi ==> #[trigger] x1[j] == x2[j],
    ensures
        span_sum(ar, r1, x1, lo, hi) == span_sum(ar, r2, x2, lo, hi),
    decreases hi - lo,
{
    if hi > lo {
        lemma_span_agrees(ar, r1, r2, x1, x2, lo, hi - 1);
        assert(r1[hi - 1] == r2[hi - 1]);
        assert(x1[hi - 1] == x2[hi - 1]);
    }
}

/// What is left after products are taken away, and their sum, make the whole.
pub proof fn lemma_less_products<F: Fn(Op, Double, Double) -> Double>(
    ar: Arithmetic<F>,
    c: Numbers,
    s: Double,
    row: Seq<Double>,
    x: Seq<Double>,
    lo: int,
    hi: int,
)
    requires
        exact(ar, c),
        c(s),
        all_numbers(c, row),
        0 <= lo,
        hi <= row.len(),
        hi <= x.len(),
        forall|j: int| lo <= j < hi ==> c(#[trigger] x[j]),
    ensures
        c(less_products(ar, s, row, x, lo, hi)),
        c(span_sum(ar, row, x, lo, hi)),
        ar.plus(less_products(ar, s, row, x, lo, hi), span_sum(ar, row, x, lo, hi)) == s,
    decreases hi - lo,
{
    if hi > lo {
        lemma_less_products(ar, c, s, row, x, lo, hi - 1);
        let p = less_products(ar, s, row, x, lo, hi - 1);
        let q = span_sum(ar, row, x, lo, hi - 1);
        assert(c(row[hi - 1]) && c(x[hi - 1]));
        closed(ar, c, row[hi - 1], x[hi - 1]);
        let t = ar.times(row[hi - 1], x[hi - 1]);
        closed(ar, c, p, t);
        closed(ar, c, q, t);
        let d = ar.minus(p, t);
        closed(ar, c, t, q);
        plus_associates(ar, c, d, t, q);
        plus_commutes(ar, c, q, t);
    } else {
        closed(ar, c, s, s);
    }
}

/// The first product of a sum, and the rest.
pub proof fn lemma_span_first<F: Fn(Op, Double, Double) -> Double>(
    ar: Arithmetic<F>,
    c: Numbers,
    row: Seq<Double>,
    x: Seq<Double>,
    lo: int,
    hi: int,
)
    requires
        exact(ar, c),
        all_numbers(c, row),
        all_numbers(c, x),
        0 <= lo < hi,
        hi <= row.len(),
        hi <= x.len(),
    ensures
        span_sum(ar, row, x, lo, hi) == ar.plus(
            ar.times(row[lo], x[lo]),
            span_sum(ar, row, x, lo + 1, hi),
        ),
    decreases hi - lo,
{
    let first = ar.times(row[lo], x[lo]);
    assert(c(row[lo]) && c(x[lo]));
    closed(ar, c, row[lo], x[lo]);
    closed(ar, c, first, first);
    if hi == lo + 1 {
        assert(span_sum(ar, row, x, lo, lo) == num(0));
        assert(span_sum(ar, row, x, lo + 1, lo + 1) == num(0));
        assert(span_sum(ar, row, x, lo, lo + 1) == ar.plus(num(0), first));
    } else {
        lemma_span_first(ar, c, row, x, lo, hi - 1);
        lemma_span_closed(ar, c, row, x, lo + 1, hi - 1);
        let last = ar.times(row[hi - 1], x[hi - 1]);
        assert(c(row[hi - 1]) && c(x[hi - 1]));
        closed(ar, c, row[hi - 1], x[hi - 1]);
        plus_associates(ar, c, first, span_sum(ar, row, x, lo + 1, hi - 1), last);
    }
}

/// A row is its reduced row and the multiple of the pivot row that was taken away.
proof fn lemma_reduced_span<F: Fn(Op, Double, Double) -> Double>(
    ar: Arithmetic<F>,
    c: Numbers,
    row: Seq<Double>,
    pivot_row: Seq<Double>,
    x: Seq<Double>,
    k: int,
    lo: int,
    hi: int,
)
    requires
        exact(ar, c),
        all_numbers(c, row),
        all_numbers(c, pivot_row),
        all_numbers(c, x),
        0 <= k < lo,
        hi <= row.len(),
        row.len() == pivot_row.len(),
        row.len() == x.len(),
        k < row.len(),
        pivot_row[k] != num(0),
    ensures
        ({
            let f = ar.over(row[k], pivot_row[k]);
            span_sum(ar, row, x, lo, hi) == ar.plus(
                span_sum(ar, reduced(ar, row, pivot_row, k), x, lo, hi),
                ar.times(f, span_sum(ar, pivot_row, x, lo, hi)),
            )
        }),
    decreases hi - lo,
{
    let f = ar.over(row[k], pivot_row[k]);
    let left = reduced(ar, row, pivot_row, k);
    assert(c(row[k]) && c(pivot_row[k]));
    closed(ar, c, row[k], pivot_row[k]);
    closed(ar, c, f, f);
    lemma_reduced_closed(ar, c, row, pivot_row, k);
    if hi > lo {
        let j = hi - 1;
        lemma_reduced_span(ar, c, row, pivot_row, x, k, lo, j);
        lemma_span_closed(ar, c, left, x, lo, j);
        lemma_span_closed(ar, c, pivot_row, x, lo, j);
        let a = span_sum(ar, left, x, lo, j);
        let p = span_sum(ar, pivot_row, x, lo, j);
        assert(c(row[j]) && c(pivot_row[j]) && c(x[j]) && c(left[j]));
        closed(ar, c, f, pivot_row[j]);
        let fp = ar.times(f, pivot_row[j]);
        closed(ar, c, row[j], fp);
        closed(ar, c, left[j], x[j]);
        closed(ar, c, pivot_row[j], x[j]);
        closed(ar, c, f, p);
        closed(ar, c, f, ar.times(pivot_row[j], x[j]));
        assert(ar.plus(left[j], fp) == row[j]) by {
            if f.equals(num(0)) {
                assert(f == num(0));
                closed(ar, c, pivot_row[j], f);
                closed(ar, c, row[j], num(0));
            }
        }
        // row[j] x[j] == left[j] x[j] + f (pivot_row[j] x[j])
        closed(ar, c, x[j], left[j]);
        closed(ar, c, x[j], fp);
        closed(ar, c, x[j], row[j]);
        distributes(ar, c, x[j], left[j], fp);
        times_associates(ar, c, f, pivot_row[j], x[j]);
        let u = ar.times(left[j], x[j]);
        let w = ar.times(f, ar.times(pivot_row[j], x[j]));
        assert(ar.times(row[j], x[j]) == ar.plus(u, w));
        plus_shuffles(ar, c, a, ar.times(f, p), u, w);
        distributes(ar, c, f, p, ar.times(pivot_row[j], x[j]));
    } else {
        closed(ar, c, f, num(0));
        closed(ar, c, num(0), num(0));
    }
}

proof fn lemma_reduced_closed<F: Fn(Op, Double, Double) -> Double>(
    ar: Arithmetic<F>,
    c: Numbers,
    row: Seq<Double>,
    pivot_row: Seq<Double>,
    k: int,
)
    requires
        exact(ar, c),
        all_numbers(c, row),
        all_numbers(c, pivot_row),
        row.len() == pivot_row.len(),
        0 <= k < row.len(),
        pivot_row[k] != num(0),
    ensures
        all_numbers(c, reduced(ar, row, pivot_row, k)),
{
    let f = ar.over(row[k], pivot_row[k]);
    assert(c(row[k]) && c(pivot_row[k]));
    closed(ar, c, row[k], pivot_row[k]);
    let left = reduced(ar, row, pivot_row, k);
    assert forall|j: int| 0 <= j < left.len() implies c(#[trigger] left[j]) by {
        assert(c(row[j]) && c(pivot_row[j]));
        closed(ar, c, f, pivot_row[j]);
        closed(ar, c, row[j], ar.times(f, pivot_row[j]));
    }
}

/// A square matrix of numbers.
pub open spec fn square_of(c: Numbers, m: Seq<Seq<Double>>) -> bool {
    forall|i: int|
        0 <= i < m.len() ==> (#[trigger] m[i]).len() == m.len() && all_numbers(c, m[i])
}

/// What the rows of a matrix make of `x`.
pub open spec fn applied<F: Fn(Op, Double, Double) -> Double>(
    ar: Arithmetic<F>,
    m: Seq<Seq<Double>>,
    x: Seq<Double>,
) -> Seq<Double> {
    Seq::new(m.len(), |i: int| span_sum(ar, m[i], x, 0, x.len() as int))
}

/// What is left of the rows after elimination of `k` columns makes of `x`.
spec fn rests<F: Fn(Op, Double, Double) -> Double>(
    ar: Arithmetic<F>,
    e: Seq<Seq<Double>>,
    x: Seq<Double>,
    k: int,
) -> Seq<Double> {
    Seq::new(
        e.len(),
        |i: int| span_sum(ar, e[i], x, if i < k { i } else { k }, x.len() as int),
    )
}

/// Row `i` after elimination of `k` columns, with the multiples taken away, makes `d`.
spec fn row_makes<F: Fn(Op, Double, Double) -> Double>(
    ar: Arithmetic<F>,
    e: Seq<Seq<Double>>,
    x: Seq<Double>,
    k: int,
    d: Seq<Double>,
    i: int,
) -> bool {
    d[i] == ar.plus(
        rests(ar, e, x, k)[i],
        span_sum(ar, e[i], rests(ar, e, x, k), 0, if i < k { i } else { k }),
    )
}

proof fn lemma_pivot_not_zero<F: Fn(Op, Double, Double) -> Double>(
    ar: Arithmetic<F>,
    c: Numbers,
    m: Seq<Seq<Double>>,
    k: int,
)
    requires
        exact(ar, c),
        pivots(ar, m, k),
    ensures
        eliminated(ar, m, k)[pivot_of(eliminated(ar, m, k), k)][k] != num(0),
{
    let s = scale_of(m);
    assert(s.positive());
    assert(pivot_law(ar, s));
}

proof fn lemma_rests_closed<F: Fn(Op, Double, Double) -> Double>(
    ar: Arithmetic<F>,
    c: Numbers,
    e: Seq<Seq<Double>>,
    x: Seq<Double>,
    k: int,
)
    requires
        exact(ar, c),
        square_of(c, e),
        all_numbers(c, x),
        x.len() == e.len(),
        0 <= k,
    ensures
        all_numbers(c, rests(ar, e, x, k)),
{
    let r = rests(ar, e, x, k);
    assert forall|i: int| 0 <= i < r.len() implies c(#[trigger] r[i]) by {
        assert(e[i].len() == e.len());
        lemma_span_closed(ar, c, e[i], x, if i < k { i } else { k }, x.len() as int);
    }
}

/// A row below the pivot is its reduced row and a multiple of the pivot row.
proof fn lemma_row_reduced<F: Fn(Op, Double, Double) -> Double>(
    ar: Arithmetic<F>,
    c: Numbers,
    row: Seq<Double>,
    pivot_row: Seq<Double>,
    x: Seq<Double>,
    k: int,
)
    requires
        exact(ar, c),
        all_numbers(c, row),
        all_numbers(c, pivot_row),
        all_numbers(c, x),
        row.len() == pivot_row.len(),
        row.len() == x.len(),
        0 <= k < row.len(),
        pivot_row[k] != num(0),
    ensures
        ({
            let n = x.len() as int;
            let f = ar.over(row[k], pivot_row[k]);
            span_sum(ar, row, x, k, n) == ar.plus(
                span_sum(ar, reduced(ar, row, pivot_row, k), x, k + 1, n),
                ar.times(f, span_sum(ar, pivot_row, x, k, n)),
            )
        }),
{
    let n = x.len() as int;
    let f = ar.over(row[k], pivot_row[k]);
    let left = reduced(ar, row, pivot_row, k);
    assert(c(row[k]) && c(pivot_row[k]) && c(x[k]));
    closed(ar, c, row[k], pivot_row[k]);
    lemma_span_first(ar, c, row, x, k, n);
    lemma_span_first(ar, c, pivot_row, x, k, n);
    lemma_reduced_span(ar, c, row, pivot_row, x, k, k + 1, n);
    lemma_reduced_closed(ar, c, row, pivot_row, k);
    lemma_span_closed(ar, c, left, x, k + 1, n);
    lemma_span_closed(ar, c, pivot_row, x, k + 1, n);
    let a = span_sum(ar, left, x, k + 1, n);
    let p = span_sum(ar, pivot_row, x, k + 1, n);
    let t = ar.times(pivot_row[k], x[k]);
    closed(ar, c, pivot_row[k], x[k]);
    closed(ar, c, f, t);
    closed(ar, c, f, p);
    let ft = ar.times(f, t);
    let fp = ar.times(f, p);
    times_associates(ar, c, f, pivot_row[k], x[k]);
    assert(ar.times(row[k], x[k]) == ft);
    distributes(ar, c, f, t, p);
    // ft + (a + fp) == a + (ft + fp)
    plus_associates(ar, c, ft, a, fp);
    plus_commutes(ar, c, ft, a);
    plus_associates(ar, c, a, ft, fp);
}

/// Elimination of a column keeps what the rows make.
proof fn lemma_eliminate_makes<F: Fn(Op, Double, Double) -> Double>(
    ar: Arithmetic<F>,
    c: Numbers,
    e: Seq<Seq<Double>>,
    x: Seq<Double>,
    k: int,
    d: Seq<Double>,
)
    requires
        exact(ar, c),
        square_of(c, e),
        all_numbers(c, x),
        x.len() == e.len(),
        d.len() == e.len(),
        0 <= k < e.len(),
        k <= pivot_of(e, k) < e.len(),
        e[pivot_of(e, k)][k] != num(0),
        forall|i: int| 0 <= i < e.len() ==> #[trigger] row_makes(ar, e, x, k, d, i),
    ensures
        square_of(c, eliminate(ar, e, k)),
        eliminate(ar, e, k)[k][k] != num(0),
        forall|i: int| 0 <= i < k ==> #[trigger] eliminate(ar, e, k)[i] == e[i],
        forall|i: int|
            0 <= i < e.len() ==> #[trigger] row_makes(
                ar,
                eliminate(ar, e, k),
                x,
                k + 1,
                rows_swapped(d, k, pivot_of(e, k)),
                i,
            ),
{
    let n = x.len() as int;
    let p = pivot_of(e, k);
    let s = rows_swapped(e, k, p);
    let d2 = rows_swapped(d, k, p);
    let e2 = eliminate(ar, e, k);
    let r0 = rests(ar, e, x, k);
    let r2 = rests(ar, e2, x, k + 1);
    assert(s[k] == e[p]);
    assert forall|i: int| 0 <= i < n implies (#[trigger] s[i]).len() == n && all_numbers(c, s[i]) by {
        let q = if i == k {
            p
        } else if i == p {
            k
        } else {
            i
        };
        assert(s[i] == e[q]);
        assert(e[q].len() == e.len());
    }
    assert forall|i: int| 0 <= i < n implies (#[trigger] e2[i]).len() == e2.len() && all_numbers(
        c,
        e2[i],
    ) by {
        assert(s[i].len() == n);
        assert(s[k].len() == n);
        if i > k {
            lemma_reduced_closed(ar, c, s[i], s[k], k);
        }
    }
    lemma_rests_closed(ar, c, e, x, k);
    lemma_rests_closed(ar, c, e2, x, k + 1);
    assert forall|j: int| 0 <= j < k implies #[trigger] r2[j] == r0[j] by {
        assert(e2[j] == e[j]);
    }
    assert(r2[k] == r0[p]);
    assert forall|i: int| 0 <= i < n implies #[trigger] row_makes(ar, e2, x, k + 1, d2, i) by {
        if i < k {
            assert(row_makes(ar, e, x, k, d, i));
            assert(e2[i] == e[i]);
            assert(d2[i] == d[i]);
            lemma_span_agrees(ar, e2[i], e[i], r2, r0, 0, i);
        } else {
            let q = if i == k {
                p
            } else if i == p {
                k
            } else {
                i
            };
            assert(s[i] == e[q]);
            assert(d2[i] == d[q]);
            assert(row_makes(ar, e, x, k, d, q));
            let low = span_sum(ar, e[q], r0, 0, k);
            assert(d2[i] == ar.plus(r0[q], low));
            if i == k {
                lemma_span_agrees(ar, e2[i], e[q], r2, r0, 0, k);
            } else {
                assert(s[i].len() == n && s[k].len() == n);
                lemma_row_reduced(ar, c, s[i], s[k], x, k);
                let f = ar.over(s[i][k], s[k][k]);
                assert(e2[i] == reduced(ar, s[i], s[k], k));
                assert(e2[i][k] == f);
                lemma_span_agrees(ar, e2[i], e[q], r2, r0, 0, k);
                let g = r2[k];
                assert(r0[q] == ar.plus(r2[i], ar.times(f, g)));
                assert(span_sum(ar, e2[i], r2, 0, k + 1) == ar.plus(low, ar.times(f, g)));
                assert(e[q].len() == n);
                lemma_span_closed(ar, c, e[q], r0, 0, k);
                assert(c(s[i][k]) && c(s[k][k]) && c(r2[k]) && c(r2[i]));
                closed(ar, c, s[i][k], s[k][k]);
                closed(ar, c, f, g);
                let fg = ar.times(f, g);
                plus_associates(ar, c, r2[i], fg, low);
                plus_commutes(ar, c, fg, low);
            }
        }
    }
}

/// Elimination keeps what the rows make, column by column.
proof fn lemma_eliminated_makes<F: Fn(Op, Double, Double) -> Double>(
    ar: Arithmetic<F>,
    c: Numbers,
    m: Seq<Seq<Double>>,
    x: Seq<Double>,
    k: int,
)
    requires
        exact(ar, c),
        square_of(c, m),
        all_numbers(c, x),
        x.len() == m.len(),
        m.len() <= usize::MAX,
        0 <= k <= m.len(),
        regular(ar, m),
    ensures
        eliminated(ar, m, k).len() == m.len(),
        square_of(c, eliminated(ar, m, k)),
        exchanged(applied(ar, m, x), exchanges_of(ar, m), k).len() == m.len(),
        forall|i: int| 0 <= i < k ==> (#[trigger] eliminated(ar, m, k)[i])[i] != num(0),
        forall|i: int|
            0 <= i < m.len() ==> #[trigger] row_makes(
                ar,
                eliminated(ar, m, k),
                x,
                k,
                exchanged(applied(ar, m, x), exchanges_of(ar, m), k),
                i,
            ),
    decreases k,
{
    let e = eliminated(ar, m, k);
    let d = exchanged(applied(ar, m, x), exchanges_of(ar, m), k);
    if k == 0 {
        lemma_rests_closed(ar, c, m, x, 0);
        let r = rests(ar, m, x, 0);
        assert forall|i: int| 0 <= i < m.len() implies #[trigger] row_makes(ar, m, x, 0, d, i) by {
            assert(c(r[i]));
            closed(ar, c, r[i], r[i]);
            assert(span_sum(ar, m[i], r, 0, 0) == num(0));
            assert(d[i] == r[i]);
        }
    } else {
        lemma_eliminated_makes(ar, c, m, x, k - 1);
        let before = eliminated(ar, m, k - 1);
        let db = exchanged(applied(ar, m, x), exchanges_of(ar, m), k - 1);
        assert(pivots(ar, m, k - 1));
        lemma_pivot_not_zero(ar, c, m, k - 1);
        crate::linalg::lemma_pivot_range(before, k - 1, before.len() as int);
        let p = pivot_of(before, k - 1);
        assert(exchanges_of(ar, m)[k - 1] == p);
        lemma_eliminate_makes(ar, c, before, x, k - 1, db);
        assert(d == rows_swapped(db, k - 1, p));
        assert forall|i: int| 0 <= i < k implies (#[trigger] e[i])[i] != num(0) by {
            if i < k - 1 {
                assert(before[i][i] != num(0));
            }
        }
    }
}

proof fn lemma_exchanged_len(b: Seq<Double>, piv: Seq<usize>, k: int)
    requires
        0 <= k <= piv.len(),
        k <= b.len(),
        forall|j: int| 0 <= j < k ==> (#[trigger] piv[j]) < b.len(),
    ensures
        exchanged(b, piv, k).len() == b.len(),
    decreases k,
{
    if k > 0 {
        lemma_exchanged_len(b, piv, k - 1);
    }
}

/// Row exchanges can be undone.
proof fn lemma_exchanged_injective(a: Seq<Double>, b: Seq<Double>, piv: Seq<usize>, k: int)
    requires
        a.len() == b.len(),
        0 <= k <= a.len(),
        k <= piv.len(),
        forall|j: int| 0 <= j < k ==> (#[trigger] piv[j]) < a.len(),
        exchanged(a, piv, k) == exchanged(b, piv, k),
    ensures
        a == b,
    decreases k,
{
    if k > 0 {
        let a1 = exchanged(a, piv, k - 1);
        let b1 = exchanged(b, piv, k - 1);
        lemma_exchanged_len(a, piv, k - 1);
        lemma_exchanged_len(b, piv, k - 1);
        let i = k - 1;
        let p = piv[k - 1] as int;
        let ae = rows_swapped(a1, i, p);
        let be = rows_swapped(b1, i, p);
        assert forall|j: int| 0 <= j < a1.len() implies a1[j] == b1[j] by {
            let q = if j == i {
                p
            } else if j == p {
                i
            } else {
                j
            };
            assert(ae[q] == be[q]);
            assert(ae[q] == a1[j]);
            assert(be[q] == b1[j]);
        }
        assert(a1 =~= b1);
        lemma_exchanged_injective(a, b, piv, k - 1);
    }
}

proof fn lemma_exchanges_in_range<F: Fn(Op, Double, Double) -> Double>(ar: Arithmetic<F>, c: Numbers, m: Seq<Seq<Double>>, j: int)
    requires
        exact(ar, c),
        square_of(c, m),
        m.len() <= usize::MAX,
        0 <= j < m.len(),
        regular(ar, m),
    ensures
        exchanges_of(ar, m)[j] < m.len(),
{
    let x = Seq::new(m.len(), |i: int| num(0));
    lemma_eliminated_makes(ar, c, m, x, j);
    crate::linalg::lemma_pivot_range(eliminated(ar, m, j), j, m.len() as int);
}

/// Forward substitution finds what is left of the rows.
proof fn lemma_forward_finds<F: Fn(Op, Double, Double) -> Double>(
    ar: Arithmetic<F>,
    c: Numbers,
    lu: Seq<Seq<Double>>,
    d: Seq<Double>,
    g: Seq<Double>,
    y: Seq<Double>,
    i: int,
)
    requires
        exact(ar, c),
        square_of(c, lu),
        all_numbers(c, g),
        g.len() == lu.len(),
        d.len() == lu.len(),
        forall|i: int|
            0 <= i < lu.len() ==> #[trigger] d[i] == ar.plus(g[i], span_sum(ar, lu[i], g, 0, i)),
        forward_unit(ar, lu, d, y),
        0 <= i < lu.len(),
    ensures
        y[i] == g[i],
    decreases i,
{
    assert forall|j: int| 0 <= j < i implies #[trigger] y[j] == g[j] by {
        lemma_forward_finds(ar, c, lu, d, g, y, j);
    }
    assert(lu[i].len() == lu.len());
    lemma_span_closed(ar, c, lu[i], g, 0, i);
    assert(c(g[i]));
    closed(ar, c, g[i], span_sum(ar, lu[i], g, 0, i));
    assert(d[i] == ar.plus(g[i], span_sum(ar, lu[i], g, 0, i)));
    assert forall|j: int| 0 <= j < i implies c(#[trigger] y[j]) by {
        assert(y[j] == g[j]);
        assert(c(g[j]));
    }
    lemma_less_products(ar, c, d[i], lu[i], y, 0, i);
    lemma_span_agrees(ar, lu[i], lu[i], y, g, 0, i);
    plus_cancels(
        ar,
        c,
        less_products(ar, d[i], lu[i], y, 0, i),
        g[i],
        span_sum(ar, lu[i], g, 0, i),
    );
}

/// Back substitution finds what the rows were applied to.
proof fn lemma_backward_finds<F: Fn(Op, Double, Double) -> Double>(
    ar: Arithmetic<F>,
    c: Numbers,
    lu: Seq<Seq<Double>>,
    y: Seq<Double>,
    x: Seq<Double>,
    w: Seq<Double>,
    i: int,
)
    requires
        exact(ar, c),
        square_of(c, lu),
        all_numbers(c, x),
        x.len() == lu.len(),
        y.len() == lu.len(),
        forall|i: int| 0 <= i < lu.len() ==> (#[trigger] lu[i])[i] != num(0),
        forall|i: int|
            0 <= i < lu.len() ==> #[trigger] y[i] == span_sum(
                ar,
                lu[i],
                x,
                i,
                x.len() as int,
            ),
        backward(ar, lu, y, w),
        0 <= i < lu.len(),
    ensures
        w[i] == x[i],
    decreases lu.len() - i,
{
    let n = x.len() as int;
    assert forall|j: int| i < j < n implies #[trigger] w[j] == x[j] by {
        lemma_backward_finds(ar, c, lu, y, x, w, j);
    }
    assert(lu[i].len() == lu.len());
    assert(c(lu[i][i]) && c(x[i]));
    lemma_span_first(ar, c, lu[i], x, i, n);
    lemma_span_closed(ar, c, lu[i], x, i, n);
    lemma_span_closed(ar, c, lu[i], x, i + 1, n);
    assert(y[i] == span_sum(ar, lu[i], x, i, n));
    assert forall|j: int| i + 1 <= j < n implies c(#[trigger] w[j]) by {
        assert(w[j] == x[j]);
        assert(c(x[j]));
    }
    lemma_less_products(ar, c, y[i], lu[i], w, i + 1, n);
    lemma_span_agrees(ar, lu[i], lu[i], w, x, i + 1, n);
    let rest = less_products(ar, y[i], lu[i], w, i + 1, n);
    closed(ar, c, lu[i][i], x[i]);
    plus_cancels(
        ar,
        c,
        rest,
        ar.times(lu[i][i], x[i]),
        span_sum(ar, lu[i], x, i + 1, n),
    );
    closed(ar, c, rest, lu[i][i]);
    closed(ar, c, x[i], lu[i][i]);
    assert(w[i] == ar.over(rest, lu[i][i]));
    times_cancels(ar, c, w[i], x[i], lu[i][i]);
}

/// Elimination without rounding finds the solution of a system: where `x` satisfies it,
/// `x` is found.
pub proof fn elimination_finds_the_solution<F: Fn(Op, Double, Double) -> Double>(
    ar: Arithmetic<F>,
    c: Numbers,
    m: Seq<Seq<Double>>,
    b: Seq<Double>,
    x: Seq<Double>,
    w: Seq<Double>,
)
    requires
        exact(ar, c),
        m.len() <= usize::MAX,
        square_of(c, m),
        all_numbers(c, x),
        x.len() == m.len(),
        b == applied(ar, m, x),
        solution(ar, m, b, w),
    ensures
        w == x,
{
    let n = m.len() as int;
    let lu = eliminated(ar, m, n);
    let d = exchanged(b, exchanges_of(ar, m), n);
    lemma_eliminated_makes(ar, c, m, x, n);
    lemma_rests_closed(ar, c, lu, x, n);
    let g = rests(ar, lu, x, n);
    let y = choose|y: Seq<Double>| #[trigger] forward_unit(ar, lu, d, y) && backward(ar, lu, y, w);
    assert forall|i: int| 0 <= i < n implies #[trigger] d[i] == ar.plus(
        g[i],
        span_sum(ar, lu[i], g, 0, i),
    ) by {
        assert(row_makes(ar, lu, x, n, d, i));
    }
    assert forall|i: int| 0 <= i < n implies #[trigger] y[i] == span_sum(ar, lu[i], x, i, n) by {
        lemma_forward_finds(ar, c, lu, d, g, y, i);
        assert(g[i] == span_sum(ar, lu[i], x, i, n));
    }
    assert forall|i: int| 0 <= i < n implies w[i] == x[i] by {
        lemma_backward_finds(ar, c, lu, y, x, w, i);
    }
    assert(w =~= x);
}

/// What elimination without rounding finds is numbers.
proof fn lemma_solution_closed<F: Fn(Op, Double, Double) -> Double>(
    ar: Arithmetic<F>,
    c: Numbers,
    lu: Seq<Seq<Double>>,
    y: Seq<Double>,
    w: Seq<Double>,
    i: int,
)
    requires
        exact(ar, c),
        square_of(c, lu),
        all_numbers(c, y),
        y.len() == lu.len(),
        forall|i: int| 0 <= i < lu.len() ==> (#[trigger] lu[i])[i] != num(0),
        backward(ar, lu, y, w),
        0 <= i < lu.len(),
    ensures
        c(w[i]),
        ar.times(w[i], lu[i][i]) == less_products(ar, y[i], lu[i], w, i + 1, w.len() as int),
    decreases lu.len() - i,
{
    assert forall|j: int| i + 1 <= j < w.len() implies c(#[trigger] w[j]) by {
        lemma_solution_closed(ar, c, lu, y, w, j);
    }
    assert(lu[i].len() == lu.len());
    assert(c(y[i]) && c(lu[i][i]));
    lemma_less_products(ar, c, y[i], lu[i], w, i + 1, w.len() as int);
    let rest = less_products(ar, y[i], lu[i], w, i + 1, w.len() as int);
    closed(ar, c, rest, lu[i][i]);
    assert(w[i] == ar.over(rest, lu[i][i]));
}

proof fn lemma_forward_closed<F: Fn(Op, Double, Double) -> Double>(
    ar: Arithmetic<F>,
    c: Numbers,
    lu: Seq<Seq<Double>>,
    d: Seq<Double>,
    y: Seq<Double>,
    i: int,
)
    requires
        exact(ar, c),
        square_of(c, lu),
        all_numbers(c, d),
        d.len() == lu.len(),
        forward_unit(ar, lu, d, y),
        0 <= i < lu.len(),
    ensures
        c(y[i]),
        d[i] == ar.plus(y[i], span_sum(ar, lu[i], y, 0, i)),
    decreases i,
{
    assert forall|j: int| 0 <= j < i implies c(#[trigger] y[j]) by {
        lemma_forward_closed(ar, c, lu, d, y, j);
    }
    assert(lu[i].len() == lu.len());
    assert(c(d[i]));
    lemma_less_products(ar, c, d[i], lu[i], y, 0, i);
    assert(y[i] == less_products(ar, d[i], lu[i], y, 0, i));
}

proof fn lemma_exchanged_closed(c: Numbers, b: Seq<Double>, piv: Seq<usize>, k: int)
    requires
        all_numbers(c, b),
        0 <= k <= piv.len(),
        k <= b.len(),
        forall|j: int| 0 <= j < k ==> (#[trigger] piv[j]) < b.len(),
    ensures
        all_numbers(c, exchanged(b, piv, k)),
        exchanged(b, piv, k).len() == b.len(),
    decreases k,
{
    if k > 0 {
        lemma_exchanged_closed(c, b, piv, k - 1);
        let before = exchanged(b, piv, k - 1);
        let after = exchanged(b, piv, k);
        let p = piv[k - 1] as int;
        assert forall|i: int| 0 <= i < after.len() implies c(#[trigger] after[i]) by {
            let q = if i == k - 1 {
                p
            } else if i == p {
                k - 1
            } else {
                i
            };
            assert(after[i] == before[q]);
            assert(c(before[q]));
        }
    }
}

/// What elimination without rounding finds satisfies the system.
pub proof fn elimination_satisfies_the_system<F: Fn(Op, Double, Double) -> Double>(
    ar: Arithmetic<F>,
    c: Numbers,
    m: Seq<Seq<Double>>,
    b: Seq<Double>,
    w: Seq<Double>,
)
    requires
        exact(ar, c),
        m.len() <= usize::MAX,
        square_of(c, m),
        all_numbers(c, b),
        b.len() == m.len(),
        solution(ar, m, b, w),
    ensures
        all_numbers(c, w),
        b == applied(ar, m, w),
{
    let n = m.len() as int;
    let lu = eliminated(ar, m, n);
    let piv = exchanges_of(ar, m);
    let moved = exchanged(b, piv, n);
    assert forall|j: int| 0 <= j < n implies (#[trigger] piv[j]) < n by {
        lemma_exchanges_in_range(ar, c, m, j);
    }
    lemma_exchanged_closed(c, b, piv, n);
    let zeros = Seq::new(m.len(), |i: int| num(0));
    lemma_eliminated_makes(ar, c, m, zeros, n);
    let y = choose|y: Seq<Double>| #[trigger]
        forward_unit(ar, lu, moved, y) && backward(ar, lu, y, w);
    assert forall|i: int| 0 <= i < n implies c(#[trigger] y[i]) by {
        lemma_forward_closed(ar, c, lu, moved, y, i);
    }
    assert forall|i: int| 0 <= i < n implies c(#[trigger] w[i]) by {
        lemma_solution_closed(ar, c, lu, y, w, i);
    }
    lemma_eliminated_makes(ar, c, m, w, n);
    let d = exchanged(applied(ar, m, w), piv, n);
    let g = rests(ar, lu, w, n);
    assert forall|i: int| 0 <= i < n implies #[trigger] g[i] == y[i] by {
        lemma_solution_closed(ar, c, lu, y, w, i);
        assert(lu[i].len() == lu.len());
        assert(c(lu[i][i]) && c(w[i]) && c(y[i]));
        lemma_span_first(ar, c, lu[i], w, i, n);
        lemma_less_products(ar, c, y[i], lu[i], w, i + 1, n);
        closed(ar, c, w[i], lu[i][i]);
    }
    assert forall|i: int| 0 <= i < n implies moved[i] == d[i] by {
        assert(row_makes(ar, lu, w, n, d, i));
        lemma_forward_closed(ar, c, lu, moved, y, i);
        lemma_span_agrees(ar, lu[i], lu[i], g, y, 0, i);
    }
    assert(moved =~= d);
    assert(applied(ar, m, w).len() == b.len());
    lemma_exchanged_injective(b, applied(ar, m, w), piv, n);
}

} // verus!

//! The Cholesky factor over an arithmetic without rounding: what it solves is the
//! system.

use vstd::prelude::*;

use crate::arith::{num, Arithmetic, Op};
use crate::double::Double;
use crate::exact::{
    all_numbers, closed, distributes, exact, lemma_less_products, lemma_span_agrees,
    lemma_span_closed, lemma_span_first, pivot_law, plus_shuffles, span_sum, times_associates,
    Numbers,
};
use crate::linalg::{
    column_of, definite_solution, diagonal_scale, entry, factored, forward, less_products, lower,
    positive_definite, positive_pivot, remainder, row_of, transposed,
};

verus! {

/// The root of a positive number is a number, and its square gives it back.
pub open spec fn root_law<F: Fn(Op, Double, Double) -> Double>(
    ar: Arithmetic<F>,
    c: Numbers,
    a: Double,
) -> bool {
    c(a) && a.positive() ==> c(ar.sqrt(a)) && ar.times(ar.sqrt(a), ar.sqrt(a)) == a
}

/// Roots of positive numbers are exact.
pub open spec fn roots_exact<F: Fn(Op, Double, Double) -> Double>(ar: Arithmetic<F>, c: Numbers) -> bool {
    forall|a: Double| #[trigger] root_law(ar, c, a)
}

/// A symmetric matrix of numbers, held by rows.
pub open spec fn symmetric_of(c: Numbers, a: Seq<Double>, n: nat) -> bool {
    forall|i: int, j: int|
        0 <= i < n && 0 <= j < n ==> c(#[trigger] entry(a, n, i, j)) && entry(a, n, i, j) == entry(
            a,
            n,
            j,
            i,
        )
}

/// Row `i` of the factor, with zeros above the diagonal.
spec fn factor_row<F: Fn(Op, Double, Double) -> Double>(
    ar: Arithmetic<F>,
    a: Seq<Double>,
    n: nat,
    i: int,
) -> Seq<Double> {
    Seq::new(
        n,
        |t: int|
            if t <= i {
                lower(ar, a, n, i, t)
            } else {
                num(0)
            },
    )
}

/// The factor consists of numbers, its diagonal is not zero, and its rows multiply to the
/// matrix.
proof fn lemma_lower<F: Fn(Op, Double, Double) -> Double>(
    ar: Arithmetic<F>,
    c: Numbers,
    a: Seq<Double>,
    n: nat,
    i: int,
    k: int,
)
    requires
        exact(ar, c),
        roots_exact(ar, c),
        symmetric_of(c, a, n),
        positive_definite(ar, a, n),
        0 <= k <= i < n,
    ensures
        c(lower(ar, a, n, i, k)),
        c(remainder(ar, a, n, i, k, k as nat)),
        lower(ar, a, n, k, k) != num(0),
        remainder(ar, a, n, i, k, k as nat) == ar.times(
            lower(ar, a, n, i, k),
            lower(ar, a, n, k, k),
        ),
    decreases k, i - k, n + 1,
{
    lemma_remainder(ar, c, a, n, i, k, k as nat);
    lemma_remainder(ar, c, a, n, k, k, k as nat);
    let d = remainder(ar, a, n, k, k, k as nat);
    assert(positive_pivot(ar, a, n, k));
    assert(pivot_law(ar, diagonal_scale(a, n)));
    assert(d.positive());
    assert(root_law(ar, c, d));
    let l = ar.sqrt(d);
    assert(lower(ar, a, n, k, k) == l);
    closed(ar, c, l, l);
    assert(l != num(0)) by {
        if l == num(0) {
            closed(ar, c, num(0), num(0));
            assert(d == num(0));
        }
    }
    closed(ar, c, remainder(ar, a, n, i, k, k as nat), l);
}

/// What is left of an entry, and the products of the first `m` entries of two rows of the
/// factor, make the entry.
proof fn lemma_remainder<F: Fn(Op, Double, Double) -> Double>(
    ar: Arithmetic<F>,
    c: Numbers,
    a: Seq<Double>,
    n: nat,
    i: int,
    k: int,
    m: nat,
)
    requires
        exact(ar, c),
        roots_exact(ar, c),
        symmetric_of(c, a, n),
        positive_definite(ar, a, n),
        0 <= k <= i < n,
        m <= k,
    ensures
        c(remainder(ar, a, n, i, k, m)),
        c(span_sum(ar, factor_row(ar, a, n, i), factor_row(ar, a, n, k), 0, m as int)),
        ar.plus(
            remainder(ar, a, n, i, k, m),
            span_sum(ar, factor_row(ar, a, n, i), factor_row(ar, a, n, k), 0, m as int),
        ) == entry(a, n, i, k),
    decreases k, 0int, m,
{
    assert(c(entry(a, n, i, k)));
    if m == 0 {
        closed(ar, c, entry(a, n, i, k), num(0));
    } else {
        let fi = factor_row(ar, a, n, i);
        let fk = factor_row(ar, a, n, k);
        lemma_remainder(ar, c, a, n, i, k, (m - 1) as nat);
        lemma_lower(ar, c, a, n, i, m - 1);
        lemma_lower(ar, c, a, n, k, m - 1);
        let p = lower(ar, a, n, i, m - 1);
        let q = lower(ar, a, n, k, m - 1);
        assert(fi[m - 1] == p && fk[m - 1] == q);
        closed(ar, c, p, q);
        let t = ar.times(p, q);
        let r = remainder(ar, a, n, i, k, (m - 1) as nat);
        let s = span_sum(ar, fi, fk, 0, m - 1);
        closed(ar, c, r, t);
        closed(ar, c, s, t);
        closed(ar, c, t, s);
        crate::exact::plus_associates(ar, c, ar.minus(r, t), t, s);
    }
}

proof fn lemma_factor_row_closed<F: Fn(Op, Double, Double) -> Double>(
    ar: Arithmetic<F>,
    c: Numbers,
    a: Seq<Double>,
    n: nat,
    i: int,
)
    requires
        exact(ar, c),
        roots_exact(ar, c),
        symmetric_of(c, a, n),
        positive_definite(ar, a, n),
        0 <= i < n,
    ensures
        all_numbers(c, factor_row(ar, a, n, i)),
{
    let f = factor_row(ar, a, n, i);
    assert forall|t: int| 0 <= t < f.len() implies c(#[trigger] f[t]) by {
        if t <= i {
            lemma_lower(ar, c, a, n, i, t);
        }
    }
}

/// Products with zeros at the end add nothing.
proof fn lemma_zeros_end<F: Fn(Op, Double, Double) -> Double>(
    ar: Arithmetic<F>,
    c: Numbers,
    x: Seq<Double>,
    y: Seq<Double>,
    lo: int,
    hi: int,
)
    requires
        exact(ar, c),
        all_numbers(c, x),
        all_numbers(c, y),
        0 <= lo <= hi,
        hi <= x.len(),
        hi <= y.len(),
        forall|i: int| lo <= i < hi ==> #[trigger] y[i] == num(0),
    ensures
        span_sum(ar, x, y, 0, hi) == span_sum(ar, x, y, 0, lo),
    decreases hi,
{
    if hi > lo {
        lemma_zeros_end(ar, c, x, y, lo, hi - 1);
        assert(y[hi - 1] == num(0));
        assert(c(x[hi - 1]));
        closed(ar, c, x[hi - 1], num(0));
        lemma_span_closed(ar, c, x, y, 0, lo);
        closed(ar, c, span_sum(ar, x, y, 0, lo), num(0));
    }
}

/// Products with zeros at the beginning add nothing.
proof fn lemma_zeros_begin<F: Fn(Op, Double, Double) -> Double>(
    ar: Arithmetic<F>,
    c: Numbers,
    x: Seq<Double>,
    y: Seq<Double>,
    lo: int,
    hi: int,
)
    requires
        exact(ar, c),
        all_numbers(c, x),
        all_numbers(c, y),
        0 <= lo <= hi,
        hi <= x.len(),
        hi <= y.len(),
        forall|i: int| 0 <= i < lo ==> #[trigger] x[i] == num(0),
    ensures
        span_sum(ar, x, y, 0, hi) == span_sum(ar, x, y, lo, hi),
    decreases hi,
{
    closed(ar, c, num(0), num(0));
    if hi > lo {
        lemma_zeros_begin(ar, c, x, y, lo, hi - 1);
    } else if hi > 0 {
        lemma_zeros_begin(ar, c, x, y, lo - 1, hi - 1);
        assert(x[hi - 1] == num(0));
        assert(c(y[hi - 1]));
        closed(ar, c, y[hi - 1], num(0));
        assert(span_sum(ar, x, y, lo - 1, hi - 1) == num(0));
    }
}

/// Sums of products commute.
proof fn lemma_commutes<F: Fn(Op, Double, Double) -> Double>(
    ar: Arithmetic<F>,
    c: Numbers,
    x: Seq<Double>,
    y: Seq<Double>,
    hi: int,
)
    requires
        exact(ar, c),
        all_numbers(c, x),
        all_numbers(c, y),
        0 <= hi <= x.len(),
        hi <= y.len(),
    ensures
        span_sum(ar, x, y, 0, hi) == span_sum(ar, y, x, 0, hi),
    decreases hi,
{
    if hi > 0 {
        lemma_commutes(ar, c, x, y, hi - 1);
        assert(c(x[hi - 1]) && c(y[hi - 1]));
        closed(ar, c, x[hi - 1], y[hi - 1]);
    }
}

/// An entry of the matrix is the product of two rows of the factor.
proof fn lemma_entry_is_product<F: Fn(Op, Double, Double) -> Double>(
    ar: Arithmetic<F>,
    c: Numbers,
    a: Seq<Double>,
    n: nat,
    i: int,
    k: int,
)
    requires
        exact(ar, c),
        roots_exact(ar, c),
        symmetric_of(c, a, n),
        positive_definite(ar, a, n),
        0 <= i < n,
        0 <= k < n,
    ensures
        entry(a, n, i, k) == span_sum(
            ar,
            factor_row(ar, a, n, i),
            factor_row(ar, a, n, k),
            0,
            n as int,
        ),
    decreases
        if k <= i {
            0int
        } else {
            1int
        },
{
    let fi = factor_row(ar, a, n, i);
    let fk = factor_row(ar, a, n, k);
    lemma_factor_row_closed(ar, c, a, n, i);
    lemma_factor_row_closed(ar, c, a, n, k);
    if k <= i {
        lemma_remainder(ar, c, a, n, i, k, k as nat);
        lemma_lower(ar, c, a, n, i, k);
        lemma_lower(ar, c, a, n, k, k);
        assert(fi[k] == lower(ar, a, n, i, k));
        assert(fk[k] == lower(ar, a, n, k, k));
        let r = remainder(ar, a, n, i, k, k as nat);
        let s = span_sum(ar, fi, fk, 0, k);
        closed(ar, c, r, s);
        assert(span_sum(ar, fi, fk, 0, k + 1) == ar.plus(s, ar.times(fi[k], fk[k])));
        lemma_zeros_end(ar, c, fi, fk, k + 1, n as int);
    } else {
        lemma_entry_is_product(ar, c, a, n, k, i);
        lemma_commutes(ar, c, fi, fk, n as int);
        assert(entry(a, n, i, k) == entry(a, n, k, i));
    }
}

/// A multiple of a sum of products.
proof fn lemma_span_scaled<F: Fn(Op, Double, Double) -> Double>(
    ar: Arithmetic<F>,
    c: Numbers,
    p: Seq<Double>,
    q: Seq<Double>,
    z: Seq<Double>,
    x: Double,
    hi: int,
)
    requires
        exact(ar, c),
        all_numbers(c, p),
        all_numbers(c, q),
        c(x),
        0 <= hi <= p.len(),
        hi <= q.len(),
        hi <= z.len(),
        forall|t: int| 0 <= t < hi ==> #[trigger] z[t] == ar.times(q[t], x),
    ensures
        span_sum(ar, p, z, 0, hi) == ar.times(span_sum(ar, p, q, 0, hi), x),
    decreases hi,
{
    closed(ar, c, x, num(0));
    if hi > 0 {
        lemma_span_scaled(ar, c, p, q, z, x, hi - 1);
        let t = hi - 1;
        assert(c(p[t]) && c(q[t]));
        assert(z[t] == ar.times(q[t], x));
        lemma_span_closed(ar, c, p, q, 0, t);
        let s = span_sum(ar, p, q, 0, t);
        closed(ar, c, p[t], q[t]);
        let u = ar.times(p[t], q[t]);
        times_associates(ar, c, p[t], q[t], x);
        distributes(ar, c, x, s, u);
        closed(ar, c, s, u);
        closed(ar, c, x, s);
        closed(ar, c, x, u);
        closed(ar, c, x, ar.plus(s, u));
    }
}

/// The sum of two sums of products with the same factors.
proof fn lemma_span_added<F: Fn(Op, Double, Double) -> Double>(
    ar: Arithmetic<F>,
    c: Numbers,
    p: Seq<Double>,
    y: Seq<Double>,
    z: Seq<Double>,
    w: Seq<Double>,
    hi: int,
)
    requires
        exact(ar, c),
        all_numbers(c, p),
        all_numbers(c, y),
        all_numbers(c, z),
        0 <= hi <= p.len(),
        hi <= y.len(),
        hi <= z.len(),
        hi <= w.len(),
        forall|t: int| 0 <= t < hi ==> #[trigger] w[t] == ar.plus(y[t], z[t]),
    ensures
        span_sum(ar, p, w, 0, hi) == ar.plus(span_sum(ar, p, y, 0, hi), span_sum(ar, p, z, 0, hi)),
    decreases hi,
{
    closed(ar, c, num(0), num(0));
    if hi > 0 {
        lemma_span_added(ar, c, p, y, z, w, hi - 1);
        let t = hi - 1;
        assert(c(p[t]) && c(y[t]) && c(z[t]));
        assert(w[t] == ar.plus(y[t], z[t]));
        lemma_span_closed(ar, c, p, y, 0, t);
        lemma_span_closed(ar, c, p, z, 0, t);
        closed(ar, c, p[t], y[t]);
        closed(ar, c, p[t], z[t]);
        distributes(ar, c, p[t], y[t], z[t]);
        plus_shuffles(
            ar,
            c,
            span_sum(ar, p, y, 0, t),
            span_sum(ar, p, z, 0, t),
            ar.times(p[t], y[t]),
            ar.times(p[t], z[t]),
        );
    }
}

/// What the transposed factor makes of the first `hi` elements of `x`.
spec fn gathered_by<F: Fn(Op, Double, Double) -> Double>(
    ar: Arithmetic<F>,
    a: Seq<Double>,
    n: nat,
    x: Seq<Double>,
    hi: int,
) -> Seq<Double> {
    Seq::new(
        n,
        |t: int|
            span_sum(ar, Seq::new(n, |j: int| factor_row(ar, a, n, j)[t]), x, 0, hi),
    )
}

/// Column `t` of the factor, with zeros above the diagonal.
spec fn factor_column<F: Fn(Op, Double, Double) -> Double>(
    ar: Arithmetic<F>,
    a: Seq<Double>,
    n: nat,
    t: int,
) -> Seq<Double> {
    Seq::new(n, |j: int| factor_row(ar, a, n, j)[t])
}

proof fn lemma_factor_column_closed<F: Fn(Op, Double, Double) -> Double>(
    ar: Arithmetic<F>,
    c: Numbers,
    a: Seq<Double>,
    n: nat,
    t: int,
)
    requires
        exact(ar, c),
        roots_exact(ar, c),
        symmetric_of(c, a, n),
        positive_definite(ar, a, n),
        0 <= t < n,
    ensures
        all_numbers(c, factor_column(ar, a, n, t)),
{
    let f = factor_column(ar, a, n, t);
    assert forall|j: int| 0 <= j < f.len() implies c(#[trigger] f[j]) by {
        lemma_factor_row_closed(ar, c, a, n, j);
        assert(c(factor_row(ar, a, n, j)[t]));
    }
}

/// A row of the matrix makes of `x` what a row of the factor makes of what the transposed
/// factor makes.
proof fn lemma_exchange_sums<F: Fn(Op, Double, Double) -> Double>(
    ar: Arithmetic<F>,
    c: Numbers,
    a: Seq<Double>,
    n: nat,
    x: Seq<Double>,
    i: int,
    hi: int,
)
    requires
        exact(ar, c),
        roots_exact(ar, c),
        symmetric_of(c, a, n),
        positive_definite(ar, a, n),
        all_numbers(c, x),
        x.len() == n,
        0 <= i < n,
        0 <= hi <= n,
    ensures
        span_sum(ar, row_of(a, n, i), x, 0, hi) == span_sum(
            ar,
            factor_row(ar, a, n, i),
            gathered_by(ar, a, n, x, hi),
            0,
            n as int,
        ),
        all_numbers(c, gathered_by(ar, a, n, x, hi)),
    decreases hi,
{
    let fi = factor_row(ar, a, n, i);
    let y = gathered_by(ar, a, n, x, hi);
    lemma_factor_row_closed(ar, c, a, n, i);
    closed(ar, c, num(0), num(0));
    assert forall|t: int| 0 <= t < y.len() implies c(#[trigger] y[t]) by {
        lemma_factor_column_closed(ar, c, a, n, t);
        lemma_span_closed(ar, c, factor_column(ar, a, n, t), x, 0, hi);
    }
    if hi == 0 {
        lemma_zeros_end(ar, c, fi, y, 0, n as int);
    } else {
        let k = hi - 1;
        lemma_exchange_sums(ar, c, a, n, x, i, k);
        let before = gathered_by(ar, a, n, x, k);
        let fk = factor_row(ar, a, n, k);
        lemma_factor_row_closed(ar, c, a, n, k);
        assert(c(x[k]));
        let z = Seq::new(n, |t: int| ar.times(fk[t], x[k]));
        assert forall|t: int| 0 <= t < z.len() implies c(#[trigger] z[t]) by {
            assert(c(fk[t]));
            closed(ar, c, fk[t], x[k]);
        }
        assert forall|t: int| 0 <= t < n implies #[trigger] y[t] == ar.plus(before[t], z[t]) by {
            let col = factor_column(ar, a, n, t);
            assert(col[k] == fk[t]);
            assert(span_sum(ar, col, x, 0, hi) == ar.plus(
                span_sum(ar, col, x, 0, k),
                ar.times(col[k], x[k]),
            ));
        }
        lemma_span_scaled(ar, c, fi, fk, z, x[k], n as int);
        lemma_span_added(ar, c, fi, before, z, y, n as int);
        lemma_entry_is_product(ar, c, a, n, i, k);
        assert(row_of(a, n, i)[k] == entry(a, n, i, k));
    }
}

/// Substitution gives numbers: `v` with `v[i] * d == s[i]` less products.
proof fn lemma_forward_numbers<F: Fn(Op, Double, Double) -> Double>(
    ar: Arithmetic<F>,
    c: Numbers,
    a: Seq<Double>,
    n: nat,
    l: Seq<Double>,
    b: Seq<Double>,
    y: Seq<Double>,
    i: int,
)
    requires
        exact(ar, c),
        roots_exact(ar, c),
        symmetric_of(c, a, n),
        positive_definite(ar, a, n),
        factored(ar, a, n, n as int, l),
        forward(ar, l, n, b, y),
        all_numbers(c, b),
        b.len() == n,
        0 <= i < n,
    ensures
        c(y[i]),
        b[i] == span_sum(ar, factor_row(ar, a, n, i), y, 0, i + 1),
    decreases i,
{
    assert forall|j: int| 0 <= j < i implies c(#[trigger] y[j]) by {
        lemma_forward_numbers(ar, c, a, n, l, b, y, j);
    }
    let f = factor_row(ar, a, n, i);
    lemma_factor_row_closed(ar, c, a, n, i);
    lemma_lower(ar, c, a, n, i, i);
    let d = lower(ar, a, n, i, i);
    assert(entry(l, n, i, i) == d);
    assert forall|j: int| 0 <= j < i implies #[trigger] row_of(l, n, i)[j] == f[j] by {
        assert(entry(l, n, i, j) == lower(ar, a, n, i, j));
    }
    assert(c(b[i]));
    lemma_less_agrees(ar, b[i], row_of(l, n, i), f, y, 0, i);
    lemma_less_products(ar, c, b[i], f, y, 0, i);
    let rest = less_products(ar, b[i], f, y, 0, i);
    closed(ar, c, rest, d);
    assert(y[i] == ar.over(rest, d));
    assert(f[i] == d);
    let s = span_sum(ar, f, y, 0, i);
    closed(ar, c, rest, s);
    closed(ar, c, y[i], d);
    assert(span_sum(ar, f, y, 0, i + 1) == ar.plus(s, ar.times(f[i], y[i])));
}

proof fn lemma_less_agrees<F: Fn(Op, Double, Double) -> Double>(
    ar: Arithmetic<F>,
    s: Double,
    p: Seq<Double>,
    q: Seq<Double>,
    x: Seq<Double>,
    lo: int,
    hi: int,
)
    requires
        forall|j: int| lo <= j < hi ==> #[trigger] p[j] == q[j],
    ensures
        less_products(ar, s, p, x, lo, hi) == less_products(ar, s, q, x, lo, hi),
    decreases hi - lo,
{
    if hi > lo {
        lemma_less_agrees(ar, s, p, q, x, lo, hi - 1);
        assert(p[hi - 1] == q[hi - 1]);
    }
}

proof fn lemma_transposed_numbers<F: Fn(Op, Double, Double) -> Double>(
    ar: Arithmetic<F>,
    c: Numbers,
    a: Seq<Double>,
    n: nat,
    l: Seq<Double>,
    y: Seq<Double>,
    x: Seq<Double>,
    i: int,
)
    requires
        exact(ar, c),
        roots_exact(ar, c),
        symmetric_of(c, a, n),
        positive_definite(ar, a, n),
        factored(ar, a, n, n as int, l),
        transposed(ar, l, n, y, x),
        all_numbers(c, y),
        y.len() == n,
        0 <= i < n,
    ensures
        c(x[i]),
        ar.plus(
            ar.times(lower(ar, a, n, i, i), x[i]),
            span_sum(ar, factor_column(ar, a, n, i), x, i + 1, n as int),
        ) == y[i],
    decreases n - i,
{
    assert forall|j: int| i + 1 <= j < n implies c(#[trigger] x[j]) by {
        lemma_transposed_numbers(ar, c, a, n, l, y, x, j);
    }
    let f = factor_column(ar, a, n, i);
    lemma_factor_column_closed(ar, c, a, n, i);
    lemma_lower(ar, c, a, n, i, i);
    let d = lower(ar, a, n, i, i);
    assert(entry(l, n, i, i) == d);
    assert forall|j: int| i + 1 <= j < n implies #[trigger] column_of(l, n, i)[j] == f[j] by {
        assert(entry(l, n, j, i) == lower(ar, a, n, j, i));
    }
    assert(c(y[i]));
    lemma_less_agrees(ar, y[i], column_of(l, n, i), f, x, i + 1, n as int);
    lemma_less_products(ar, c, y[i], f, x, i + 1, n as int);
    let rest = less_products(ar, y[i], f, x, i + 1, n as int);
    closed(ar, c, rest, d);
    assert(x[i] == ar.over(rest, d));
    closed(ar, c, x[i], d);
}

/// What the Cholesky factor finds without rounding satisfies the system.
pub proof fn factor_satisfies_the_system<F: Fn(Op, Double, Double) -> Double>(
    ar: Arithmetic<F>,
    c: Numbers,
    a: Seq<Double>,
    n: nat,
    b: Seq<Double>,
    x: Seq<Double>,
)
    requires
        exact(ar, c),
        roots_exact(ar, c),
        symmetric_of(c, a, n),
        all_numbers(c, b),
        b.len() == n,
        definite_solution(ar, a, n, b, x),
    ensures
        all_numbers(c, x),
        forall|i: int|
            0 <= i < n ==> #[trigger] b[i] == span_sum(ar, row_of(a, n, i), x, 0, n as int),
{
    let (l, y) = choose|l: Seq<Double>, y: Seq<Double>| #[trigger]
        factored(ar, a, n, n as int, l) && #[trigger] forward(ar, l, n, b, y) && transposed(
            ar,
            l,
            n,
            y,
            x,
        );
    assert forall|i: int| 0 <= i < n implies c(#[trigger] y[i]) by {
        lemma_forward_numbers(ar, c, a, n, l, b, y, i);
    }
    assert forall|i: int| 0 <= i < n implies c(#[trigger] x[i]) by {
        lemma_transposed_numbers(ar, c, a, n, l, y, x, i);
    }
    let made = gathered_by(ar, a, n, x, n as int);
    assert forall|t: int| 0 <= t < n implies #[trigger] made[t] == y[t] by {
        let f = factor_column(ar, a, n, t);
        lemma_factor_column_closed(ar, c, a, n, t);
        lemma_transposed_numbers(ar, c, a, n, l, y, x, t);
        lemma_zeros_begin(ar, c, f, x, t, n as int);
        lemma_span_first(ar, c, f, x, t, n as int);
        assert(f[t] == lower(ar, a, n, t, t));
    }
    assert forall|i: int| 0 <= i < n implies #[trigger] b[i] == span_sum(
        ar,
        row_of(a, n, i),
        x,
        0,
        n as int,
    ) by {
        let f = factor_row(ar, a, n, i);
        lemma_factor_row_closed(ar, c, a, n, i);
        lemma_exchange_sums(ar, c, a, n, x, i, n as int);
        lemma_span_agrees(ar, f, f, made, y, 0, n as int);
        lemma_forward_numbers(ar, c, a, n, l, b, y, i);
        lemma_commutes(ar, c, f, y, n as int);
        lemma_commutes(ar, c, f, y, i + 1);
        lemma_zeros_end(ar, c, y, f, i + 1, n as int);
    }
}

} // verus!

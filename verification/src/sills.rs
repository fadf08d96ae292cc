//! Fits of models of coregionalization over an arithmetic without rounding: how bins weigh,
//! that least squares leave no structure in the residuals, and what a projection keeps.

use vstd::prelude::*;

use crate::algebra::{halves, lemma_minus_undoes, lemma_rows_added, lemma_squares};
use crate::arith::{num, Arithmetic, Op, HALF, LEAST, TWO};
use crate::double::{Double, ONE};
use crate::exact::{
    all_numbers, applied, closed, distributes, elimination_satisfies_the_system, exact,
    lemma_span_closed, plus_shuffles, span_sum, start_law, times_associates, Numbers,
};
use crate::exact_collocated::lemma_span_scaled;
use crate::io_utils::VariogramBin;
use crate::lmc::{psd_lower, psd_remainder};
use crate::lmc_fit::{
    curve_error, entries_for, fit_without, normal_cell, normal_matrix, normal_rhs, normal_scale,
    normal_vector, projected, refit, refit_num, weighted_error, wls_sills, Curves, LmcCurve,
    PairSills, TemplateStructure, FIT_RIDGE, FOUR, NEXT_TO_ZERO,
};

verus! {

/// Every value of a curve is a number.
pub open spec fn curve_numeric(c: Numbers, curve: LmcCurve, n: nat) -> bool {
    &&& curve.has(n)
    &&& all_numbers(c, curve.gamma@)
    &&& all_numbers(c, curve.w@)
    &&& forall|i: int| 0 <= i < curve.basis@.len() ==> all_numbers(c, (#[trigger] curve.basis@[i])@)
}

/// Weights of the bins, each times a structure.
pub open spec fn weighed<F: Fn(Op, Double, Double) -> Double>(
    ar: Arithmetic<F>,
    curve: LmcCurve,
    r: int,
) -> Seq<Double> {
    Seq::new(curve.w@.len(), |i: int| ar.times(curve.w@[i], curve.basis@[i]@[r]))
}

/// What sills leave of the semivariances of the bins.
pub open spec fn misses<F: Fn(Op, Double, Double) -> Double>(
    ar: Arithmetic<F>,
    curve: LmcCurve,
    sills: Seq<Double>,
) -> Seq<Double> {
    Seq::new(
        curve.gamma@.len(),
        |i: int|
            ar.minus(
                curve.gamma@[i],
                span_sum(ar, curve.basis@[i]@, sills, 0, sills.len() as int),
            ),
    )
}

/// Bins count by their pairs over the squared lag, and the nugget shows alike in all.
pub proof fn bins_weigh_by_pairs_and_lag<const D: usize, S: Fn(Double) -> Double, G, F: Fn(Op, Double, Double) -> Double>(
    ar: Arithmetic<F>,
    c: Numbers,
    curve: LmcCurve,
    template: Seq<TemplateStructure<D, S, G>>,
    bins: Seq<VariogramBin>,
    i: int,
)
    requires
        exact(ar, c),
        curve.prepared(ar, template, bins),
        0 <= i < bins.len(),
        c(bins[i].h),
        bins[i].h != num(0),
        c(Double::count(bins[i].n_pairs as nat)),
    ensures
        ar.times(ar.times(curve.w@[i], bins[i].h), bins[i].h) == Double::count(
            bins[i].n_pairs as nat,
        ),
        curve.gamma@[i] == bins[i].gamma,
        curve.basis@[i]@.len() == template.len() + 1,
        curve.basis@[i]@[0] == num(ONE),
{
    let h = bins[i].h;
    assert(curve.gamma@[i] == bins[i].gamma);
    crate::algebra::lemma_product_not_zero(ar, c, h, h);
    closed(ar, c, Double::count(bins[i].n_pairs as nat), ar.times(h, h));
    times_associates(ar, c, curve.w@[i], h, h);
}

spec fn cell_row<F: Fn(Op, Double, Double) -> Double>(
    ar: Arithmetic<F>,
    curve: LmcCurve,
    r: int,
    n: nat,
    m: int,
) -> Seq<Double> {
    Seq::new(n, |k: int| normal_cell(ar, curve, r, k, m))
}

spec fn fitted<F: Fn(Op, Double, Double) -> Double>(
    ar: Arithmetic<F>,
    curve: LmcCurve,
    sills: Seq<Double>,
) -> Seq<Double> {
    Seq::new(
        curve.gamma@.len(),
        |i: int| span_sum(ar, curve.basis@[i]@, sills, 0, sills.len() as int),
    )
}

proof fn lemma_cells<F: Fn(Op, Double, Double) -> Double>(
    ar: Arithmetic<F>,
    c: Numbers,
    curve: LmcCurve,
    r: int,
    n: nat,
    m: int,
)
    requires
        exact(ar, c),
        curve_numeric(c, curve, n),
        0 <= r < n,
        0 <= m <= curve.gamma@.len(),
    ensures
        all_numbers(c, cell_row(ar, curve, r, n, m)),
        all_numbers(c, weighed(ar, curve, r)),
        normal_rhs(ar, curve, r, m) == span_sum(ar, curve.gamma@, weighed(ar, curve, r), 0, m),
    decreases m,
{
    let row = cell_row(ar, curve, r, n, m);
    let u = weighed(ar, curve, r);
    closed(ar, c, num(0), num(0));
    assert forall|i: int| 0 <= i < u.len() implies c(#[trigger] u[i]) by {
        assert(c(curve.w@[i]));
        assert(all_numbers(c, curve.basis@[i]@) && curve.basis@[i]@.len() == n);
        assert(c(curve.basis@[i]@[r]));
        closed(ar, c, curve.w@[i], curve.basis@[i]@[r]);
    }
    if m > 0 {
        lemma_cells(ar, c, curve, r, n, m - 1);
        let before = cell_row(ar, curve, r, n, m - 1);
        assert(all_numbers(c, curve.basis@[m - 1]@) && curve.basis@[m - 1]@.len() == n);
        assert(c(u[m - 1]) && c(curve.gamma@[m - 1]));
        assert forall|k: int| 0 <= k < n implies c(#[trigger] row[k]) by {
            assert(c(before[k]) && c(curve.basis@[m - 1]@[k]));
            closed(ar, c, u[m - 1], curve.basis@[m - 1]@[k]);
            closed(ar, c, before[k], ar.times(u[m - 1], curve.basis@[m - 1]@[k]));
        }
        closed(ar, c, u[m - 1], curve.gamma@[m - 1]);
    }
}

/// The order of summation can be exchanged.
proof fn lemma_exchanged<F: Fn(Op, Double, Double) -> Double>(
    ar: Arithmetic<F>,
    c: Numbers,
    curve: LmcCurve,
    x: Seq<Double>,
    r: int,
    m: int,
)
    requires
        exact(ar, c),
        curve_numeric(c, curve, x.len()),
        all_numbers(c, x),
        0 <= r < x.len(),
        0 <= m <= curve.gamma@.len(),
    ensures
        span_sum(ar, cell_row(ar, curve, r, x.len(), m), x, 0, x.len() as int) == span_sum(
            ar,
            fitted(ar, curve, x),
            weighed(ar, curve, r),
            0,
            m,
        ),
    decreases m,
{
    let n = x.len();
    let now = cell_row(ar, curve, r, n, m);
    let u = weighed(ar, curve, r);
    let fit = fitted(ar, curve, x);
    closed(ar, c, num(0), num(0));
    lemma_cells(ar, c, curve, r, n, m);
    if m == 0 {
        lemma_zeros(ar, c, now, x, n as int);
    } else {
        lemma_exchanged(ar, c, curve, x, r, m - 1);
        lemma_cells(ar, c, curve, r, n, m - 1);
        let before = cell_row(ar, curve, r, n, m - 1);
        let row = curve.basis@[m - 1]@;
        assert(all_numbers(c, row) && row.len() == n);
        assert(c(u[m - 1]));
        let scaled = Seq::new(n, |k: int| ar.times(u[m - 1], row[k]));
        assert forall|k: int| 0 <= k < n implies c(#[trigger] scaled[k]) by {
            assert(c(row[k]));
            closed(ar, c, u[m - 1], row[k]);
        }
        lemma_rows_added(ar, c, before, scaled, now, x, n as int);
        lemma_span_scaled(ar, c, u[m - 1], row, scaled, x, n as int);
        lemma_span_closed(ar, c, row, x, 0, n as int);
        closed(ar, c, u[m - 1], fit[m - 1]);
    }
}

/// A row of zeros adds up to zero.
pub(crate) proof fn lemma_zeros<F: Fn(Op, Double, Double) -> Double>(
    ar: Arithmetic<F>,
    c: Numbers,
    row: Seq<Double>,
    x: Seq<Double>,
    hi: int,
)
    requires
        exact(ar, c),
        all_numbers(c, x),
        0 <= hi <= x.len(),
        forall|k: int| 0 <= k < hi ==> #[trigger] row[k] == num(0),
    ensures
        span_sum(ar, row, x, 0, hi) == num(0),
    decreases hi,
{
    closed(ar, c, num(0), num(0));
    if hi > 0 {
        lemma_zeros(ar, c, row, x, hi - 1);
        assert(c(x[hi - 1]) && row[hi - 1] == num(0));
        closed(ar, c, x[hi - 1], num(0));
    }
}

/// A row that is zero but for one entry adds up to what that entry takes.
pub(crate) proof fn lemma_single<F: Fn(Op, Double, Double) -> Double>(
    ar: Arithmetic<F>,
    c: Numbers,
    row: Seq<Double>,
    x: Seq<Double>,
    r: int,
    hi: int,
)
    requires
        exact(ar, c),
        all_numbers(c, x),
        0 <= r < hi <= x.len(),
        c(row[r]),
        forall|k: int| 0 <= k < hi && k != r ==> #[trigger] row[k] == num(0),
    ensures
        span_sum(ar, row, x, 0, hi) == ar.times(row[r], x[r]),
    decreases hi,
{
    assert(c(x[hi - 1]) && c(x[r]));
    closed(ar, c, row[r], x[r]);
    closed(ar, c, ar.times(row[r], x[r]), num(0));
    if r == hi - 1 {
        lemma_zeros(ar, c, row, x, hi - 1);
    } else {
        lemma_single(ar, c, row, x, r, hi - 1);
        closed(ar, c, x[hi - 1], num(0));
    }
}

/// What fits take from the semivariances and what they miss make them up.
proof fn lemma_missed<F: Fn(Op, Double, Double) -> Double>(
    ar: Arithmetic<F>,
    c: Numbers,
    curve: LmcCurve,
    x: Seq<Double>,
    r: int,
)
    requires
        exact(ar, c),
        curve_numeric(c, curve, x.len()),
        all_numbers(c, x),
        0 <= r < x.len(),
    ensures
        ({
            let m = curve.gamma@.len() as int;
            let u = weighed(ar, curve, r);
            let a = span_sum(ar, misses(ar, curve, x), u, 0, m);
            let b = span_sum(ar, fitted(ar, curve, x), u, 0, m);
            &&& c(a) && c(b)
            &&& ar.plus(a, b) == span_sum(ar, curve.gamma@, u, 0, m)
        }),
{
    let m = curve.gamma@.len() as int;
    let u = weighed(ar, curve, r);
    let miss = misses(ar, curve, x);
    let fit = fitted(ar, curve, x);
    lemma_cells(ar, c, curve, r, x.len(), m);
    assert forall|i: int| 0 <= i < m implies c(#[trigger] fit[i]) && c(miss[i])
        && curve.gamma@[i] == ar.plus(miss[i], fit[i]) by {
        assert(all_numbers(c, curve.basis@[i]@) && curve.basis@[i]@.len() == x.len());
        lemma_span_closed(ar, c, curve.basis@[i]@, x, 0, x.len() as int);
        assert(c(curve.gamma@[i]));
        closed(ar, c, curve.gamma@[i], fit[i]);
    }
    assert(all_numbers(c, miss)) by {
        assert forall|i: int| 0 <= i < miss.len() implies c(#[trigger] miss[i]) by {
            assert(c(fit[i]));
        }
    }
    assert forall|i: int| 0 <= i < m implies #[trigger] curve.gamma@[i] == ar.plus(
        miss[i],
        fit[i],
    ) by {
        assert(c(fit[i]));
    }
    lemma_rows_added(ar, c, miss, fit, curve.gamma@, u, m);
    lemma_span_closed(ar, c, miss, u, 0, m);
    lemma_span_closed(ar, c, fit, u, 0, m);
}

/// Weighted least squares sills leave no structure in what they miss, but for the ridge:
/// for every structure the misses, weighted by the bins and the structure, sum to the
/// ridge times its sill.
pub proof fn fitted_sills_leave_no_structure<F: Fn(Op, Double, Double) -> Double>(
    ar: Arithmetic<F>,
    c: Numbers,
    curve: LmcCurve,
    x: Seq<Double>,
    ridge: Double,
    r: int,
)
    requires
        exact(ar, c),
        curve_numeric(c, curve, x.len()),
        x.len() <= usize::MAX,
        wls_sills(ar, curve, x.len(), x),
        c(ridge),
        ridge == ar.times(
            num(FIT_RIDGE),
            normal_scale(ar, curve, x.len() as int).max(num(LEAST)),
        ),
        0 <= r < x.len(),
    ensures
        span_sum(
            ar,
            misses(ar, curve, x),
            weighed(ar, curve, r),
            0,
            curve.gamma@.len() as int,
        ) == ar.times(ridge, x[r]),
{
    let n = x.len();
    let m = curve.gamma@.len() as int;
    let a = normal_matrix(ar, curve, n);
    let b = normal_vector(ar, curve, n);
    let u = weighed(ar, curve, r);
    closed(ar, c, num(0), num(0));
    assert forall|i: int| 0 <= i < a.len() implies (#[trigger] a[i]).len() == a.len()
        && all_numbers(c, a[i]) && c(b[i]) by {
        lemma_cells(ar, c, curve, i, n, m);
        let row = cell_row(ar, curve, i, n, m);
        assert forall|k: int| 0 <= k < n implies c(#[trigger] a[i][k]) by {
            assert(c(row[k]));
            closed(ar, c, row[k], ridge);
        }
        lemma_span_closed(ar, c, curve.gamma@, weighed(ar, curve, i), 0, m);
    }
    assert forall|i: int| 0 <= i < b.len() implies c(#[trigger] b[i]) by {
        assert(a[i].len() == a.len());
    }
    elimination_satisfies_the_system(ar, c, a, b, x);
    assert(b[r] == applied(ar, a, x)[r]);
    lemma_cells(ar, c, curve, r, n, m);
    let cells = cell_row(ar, curve, r, n, m);
    let only = Seq::new(
        n,
        |k: int|
            if k == r {
                ridge
            } else {
                num(0)
            },
    );
    assert forall|k: int| 0 <= k < n implies #[trigger] a[r][k] == ar.plus(cells[k], only[k]) by {
        assert(c(cells[k]));
        closed(ar, c, cells[k], num(0));
    }
    assert(a[r].len() == a.len());
    lemma_rows_added(ar, c, cells, only, a[r], x, n as int);
    lemma_single(ar, c, only, x, r, n as int);
    lemma_exchanged(ar, c, curve, x, r, m);
    lemma_missed(ar, c, curve, x, r);
    let fit = span_sum(ar, fitted(ar, curve, x), u, 0, m);
    let missed = span_sum(ar, misses(ar, curve, x), u, 0, m);
    let extra = ar.times(ridge, x[r]);
    assert(c(x[r]));
    closed(ar, c, ridge, x[r]);
    closed(ar, c, fit, extra);
    assert(ar.plus(missed, fit) == ar.plus(extra, fit));
    lemma_minus_undoes(ar, c, missed, fit);
    lemma_minus_undoes(ar, c, extra, fit);
}

proof fn lemma_without<F: Fn(Op, Double, Double) -> Double>(
    ar: Arithmetic<F>,
    c: Numbers,
    entries: Seq<Double>,
    row: Seq<Double>,
    k: int,
    n: int,
)
    requires
        exact(ar, c),
        all_numbers(c, entries),
        all_numbers(c, row),
        0 <= n <= entries.len(),
        n <= row.len(),
        0 <= k < entries.len(),
    ensures
        n == 0 || (n == 1 && k == 0) ==> fit_without(ar, entries, row, k, n) == num(
            crate::arith::MINUS_ZERO,
        ) && span_sum(ar, row, entries.update(k, num(0)), 0, n) == num(0),
        !(n == 0 || (n == 1 && k == 0)) ==> fit_without(ar, entries, row, k, n) == span_sum(
            ar,
            row,
            entries.update(k, num(0)),
            0,
            n,
        ) && c(fit_without(ar, entries, row, k, n)),
    decreases n,
{
    let cut = entries.update(k, num(0));
    closed(ar, c, num(0), num(0));
    reveal_with_fuel(fit_without, 2);
    reveal_with_fuel(span_sum, 2);
    if n > 0 {
        lemma_without(ar, c, entries, row, k, n - 1);
        assert(c(row[n - 1]) && c(entries[n - 1]));
        closed(ar, c, row[n - 1], num(0));
        closed(ar, c, row[n - 1], entries[n - 1]);
        let t = ar.times(entries[n - 1], row[n - 1]);
        closed(ar, c, t, num(0));
        assert(start_law(ar, c, t));
        let s = span_sum(ar, row, cut, 0, n - 1);
        if !(n - 1 == 0 || (n - 1 == 1 && k == 0)) {
            closed(ar, c, s, num(0));
            closed(ar, c, s, t);
        }
    }
}

/// A structure solved anew leaves nothing of itself in what is missed: with its new sill
/// and the sills of the others, the misses, weighted by the bins and the structure, sum to
/// zero.
pub proof fn resolved_structure_is_least_squares<F: Fn(Op, Double, Double) -> Double>(
    ar: Arithmetic<F>,
    c: Numbers,
    curve: LmcCurve,
    sills: Seq<PairSills>,
    pair: int,
    k: int,
)
    requires
        exact(ar, c),
        sills.len() >= 2,
        curve_numeric(c, curve, sills.len()),
        all_numbers(c, entries_for(sills, pair)),
        0 <= k < sills.len(),
        normal_cell(ar, curve, k, k, curve.gamma@.len() as int).is_positive(),
        normal_cell(ar, curve, k, k, curve.gamma@.len() as int) != num(0),
    ensures
        span_sum(
            ar,
            misses(
                ar,
                curve,
                entries_for(sills, pair).update(k, refit(ar, curve, sills, pair, k)),
            ),
            weighed(ar, curve, k),
            0,
            curve.gamma@.len() as int,
        ) == num(0),
{
    let n = sills.len();
    let m = curve.gamma@.len() as int;
    let entries = entries_for(sills, pair);
    let cut = entries.update(k, num(0));
    let den = normal_cell(ar, curve, k, k, m);
    let x = refit(ar, curve, sills, pair, k);
    let full = entries.update(k, x);
    let only = Seq::new(
        n,
        |j: int|
            if j == k {
                x
            } else {
                num(0)
            },
    );
    closed(ar, c, num(0), num(0));
    assert forall|j: int| 0 <= j < n implies c(#[trigger] cut[j]) by {
        assert(c(entries[j]));
    }
    lemma_cells(ar, c, curve, k, n, m);
    let cells = cell_row(ar, curve, k, n, m);
    assert(c(cells[k]));
    let u = weighed(ar, curve, k);
    lemma_refit(ar, c, curve, sills, pair, k, m);
    let top = refit_num(ar, curve, sills, pair, k, m);
    lemma_missed(ar, c, curve, cut, k);
    assert(top == span_sum(ar, misses(ar, curve, cut), u, 0, m));
    closed(ar, c, top, den);
    assert(ar.times(x, den) == top);
    assert forall|j: int| 0 <= j < n implies c(#[trigger] full[j]) && c(only[j]) by {
        assert(c(entries[j]));
    }
    assert(all_numbers(c, only)) by {
        assert forall|j: int| 0 <= j < n implies c(#[trigger] only[j]) by {
            assert(c(full[j]));
        }
    }
    // What the structure itself fits.
    lemma_exchanged(ar, c, curve, only, k, m);
    assert(span_sum(ar, cells, only, 0, n as int) == ar.times(den, x)) by {
        lemma_single_weight(ar, c, cells, only, k, n as int);
    }
    closed(ar, c, den, x);
    let own = fitted(ar, curve, only);
    let rest = misses(ar, curve, cut);
    let now = misses(ar, curve, full);
    assert forall|i: int| 0 <= i < m implies #[trigger] rest[i] == ar.plus(now[i], own[i])
        && c(now[i]) && c(own[i]) by {
        let row = curve.basis@[i]@;
        assert(all_numbers(c, row) && row.len() == n);
        lemma_span_closed(ar, c, row, cut, 0, n as int);
        lemma_span_closed(ar, c, row, only, 0, n as int);
        lemma_span_closed(ar, c, row, full, 0, n as int);
        lemma_split(ar, c, row, cut, only, full, n as int);
        let (a, b) = (span_sum(ar, row, cut, 0, n as int), span_sum(ar, row, only, 0, n as int));
        let g = curve.gamma@[i];
        assert(c(g));
        // g - a == (g - (a + b)) + b
        closed(ar, c, a, b);
        let d = ar.minus(g, ar.plus(a, b));
        closed(ar, c, g, ar.plus(a, b));
        closed(ar, c, d, ar.plus(a, b));
        closed(ar, c, d, b);
        crate::exact::plus_associates(ar, c, d, b, a);
        closed(ar, c, ar.plus(d, b), a);
        crate::algebra::lemma_difference_is(ar, c, ar.plus(d, b), g, a);
    }
    assert(all_numbers(c, now)) by {
        assert forall|i: int| 0 <= i < now.len() implies c(#[trigger] now[i]) by {
            assert(rest[i] == ar.plus(now[i], own[i]));
        }
    }
    assert(all_numbers(c, own)) by {
        assert forall|i: int| 0 <= i < own.len() implies c(#[trigger] own[i]) by {
            assert(rest[i] == ar.plus(now[i], own[i]));
        }
    }
    lemma_rows_added(ar, c, now, own, rest, u, m);
    lemma_span_closed(ar, c, now, u, 0, m);
    let left = span_sum(ar, now, u, 0, m);
    closed(ar, c, top, num(0));
    lemma_minus_undoes(ar, c, left, top);
    lemma_minus_undoes(ar, c, num(0), top);
}

proof fn lemma_single_weight<F: Fn(Op, Double, Double) -> Double>(
    ar: Arithmetic<F>,
    c: Numbers,
    row: Seq<Double>,
    x: Seq<Double>,
    r: int,
    hi: int,
)
    requires
        exact(ar, c),
        all_numbers(c, row),
        0 <= r < hi <= row.len(),
        hi <= x.len(),
        c(x[r]),
        forall|k: int| 0 <= k < hi && k != r ==> #[trigger] x[k] == num(0),
    ensures
        span_sum(ar, row, x, 0, hi) == ar.times(row[r], x[r]),
    decreases hi,
{
    assert(c(row[hi - 1]) && c(row[r]));
    closed(ar, c, row[r], x[r]);
    closed(ar, c, ar.times(row[r], x[r]), num(0));
    closed(ar, c, row[hi - 1], num(0));
    if r == hi - 1 {
        lemma_no_weight(ar, c, row, x, hi - 1);
    } else {
        lemma_single_weight(ar, c, row, x, r, hi - 1);
    }
}

/// Weights of zero add up to zero.
pub(crate) proof fn lemma_no_weight<F: Fn(Op, Double, Double) -> Double>(
    ar: Arithmetic<F>,
    c: Numbers,
    row: Seq<Double>,
    x: Seq<Double>,
    hi: int,
)
    requires
        exact(ar, c),
        all_numbers(c, row),
        0 <= hi <= row.len(),
        forall|k: int| 0 <= k < hi ==> #[trigger] x[k] == num(0),
    ensures
        span_sum(ar, row, x, 0, hi) == num(0),
    decreases hi,
{
    closed(ar, c, num(0), num(0));
    if hi > 0 {
        lemma_no_weight(ar, c, row, x, hi - 1);
        assert(c(row[hi - 1]) && x[hi - 1] == num(0));
        closed(ar, c, row[hi - 1], num(0));
    }
}

proof fn lemma_split<F: Fn(Op, Double, Double) -> Double>(
    ar: Arithmetic<F>,
    c: Numbers,
    row: Seq<Double>,
    a: Seq<Double>,
    b: Seq<Double>,
    sum: Seq<Double>,
    hi: int,
)
    requires
        exact(ar, c),
        all_numbers(c, row),
        all_numbers(c, a),
        all_numbers(c, b),
        0 <= hi <= row.len(),
        hi <= a.len(),
        hi <= b.len(),
        forall|j: int|
            0 <= j < hi ==> (#[trigger] a[j] == num(0) && sum[j] == b[j]) || (b[j] == num(0)
                && sum[j] == a[j]),
    ensures
        span_sum(ar, row, sum, 0, hi) == ar.plus(
            span_sum(ar, row, a, 0, hi),
            span_sum(ar, row, b, 0, hi),
        ),
    decreases hi,
{
    closed(ar, c, num(0), num(0));
    if hi > 0 {
        let k = hi - 1;
        lemma_split(ar, c, row, a, b, sum, k);
        assert(c(row[k]) && c(a[k]) && c(b[k]));
        closed(ar, c, row[k], a[k]);
        closed(ar, c, row[k], b[k]);
        closed(ar, c, ar.times(row[k], a[k]), num(0));
        closed(ar, c, ar.times(row[k], b[k]), num(0));
        lemma_span_closed(ar, c, row, a, 0, k);
        lemma_span_closed(ar, c, row, b, 0, k);
        plus_shuffles(
            ar,
            c,
            span_sum(ar, row, a, 0, k),
            span_sum(ar, row, b, 0, k),
            ar.times(row[k], a[k]),
            ar.times(row[k], b[k]),
        );
        assert(ar.times(row[k], sum[k]) == ar.plus(
            ar.times(row[k], a[k]),
            ar.times(row[k], b[k]),
        ));
    }
}

proof fn lemma_refit<F: Fn(Op, Double, Double) -> Double>(
    ar: Arithmetic<F>,
    c: Numbers,
    curve: LmcCurve,
    sills: Seq<PairSills>,
    pair: int,
    k: int,
    m: int,
)
    requires
        exact(ar, c),
        sills.len() >= 2,
        curve_numeric(c, curve, sills.len()),
        all_numbers(c, entries_for(sills, pair)),
        0 <= k < sills.len(),
        0 <= m <= curve.gamma@.len(),
    ensures
        refit_num(ar, curve, sills, pair, k, m) == span_sum(
            ar,
            misses(ar, curve, entries_for(sills, pair).update(k, num(0))),
            weighed(ar, curve, k),
            0,
            m,
        ),
    decreases m,
{
    let entries = entries_for(sills, pair);
    let cut = entries.update(k, num(0));
    let n = sills.len() as int;
    if m > 0 {
        lemma_refit(ar, c, curve, sills, pair, k, m - 1);
        let row = curve.basis@[m - 1]@;
        assert(all_numbers(c, row) && row.len() == n);
        lemma_without(ar, c, entries, row, k, n);
        lemma_cells(ar, c, curve, k, sills.len(), m);
        let u = weighed(ar, curve, k);
        let miss = misses(ar, curve, cut);
        assert(c(u[m - 1]) && c(curve.gamma@[m - 1]));
        closed(ar, c, curve.gamma@[m - 1], fit_without(ar, entries, row, k, n));
        closed(ar, c, u[m - 1], miss[m - 1]);
    }
}

/// A projection onto the positive semi-definite matrices leaves a matrix as it is where
/// its lesser eigenvalue is not negative. Otherwise it keeps the part of its greater
/// eigenvalue: the sills sum to it, their product is the squared cosill, and the matrix
/// stretches the cosill and the second sill by it.
pub proof fn projections_keep_the_greater_eigenvalue<F: Fn(Op, Double, Double) -> Double>(
    ar: Arithmetic<F>,
    f: Numbers,
    a: Double,
    b: Double,
    c: Double,
    disc: Double,
    l1: Double,
    l2: Double,
)
    requires
        exact(ar, f),
        halves(ar, f),
        f(a) && f(b) && f(c) && f(disc) && f(l1) && f(l2),
        num(FOUR) == ar.plus(ar.plus(num(ONE), num(ONE)), ar.plus(num(ONE), num(ONE))),
        disc == ar.sqrt(
            ar.plus(
                ar.times(ar.minus(a, c), ar.minus(a, c)),
                ar.times(ar.plus(b, b), ar.plus(b, b)),
            ),
        ),
        ar.plus(l1, l1) == ar.plus(ar.plus(a, c), disc),
        ar.plus(ar.plus(l2, l2), disc) == ar.plus(a, c),
        num(NEXT_TO_ZERO).below(b.abs()),
        num(0).below(l1),
        forall|x: Double|
            f(x) ==> f(#[trigger] ar.sqrt(x)) && ar.times(ar.sqrt(x), ar.sqrt(x)) == x,
        ({
            let x = ar.minus(l1, c);
            num(LEAST).below(ar.sqrt(ar.plus(ar.times(x, x), ar.times(b, b)))) && ar.sqrt(
                ar.plus(ar.times(x, x), ar.times(b, b)),
            ) != num(0)
        }),
    ensures
        ({
            let p = projected(ar, a, b, c);
            if num(0).at_most(l2) {
                p.aa == a && p.bb == c && p.ab == b
            } else {
                &&& ar.plus(p.aa, p.bb) == l1
                &&& ar.times(p.aa, p.bb) == ar.times(p.ab, p.ab)
                &&& ar.plus(ar.times(b, p.aa), ar.times(c, p.ab)) == ar.times(l1, p.ab)
                &&& ar.plus(ar.times(b, p.ab), ar.times(c, p.bb)) == ar.times(l1, p.bb)
            }
        }),
{
    let half = num(HALF);
    let one = num(ONE);
    closed(ar, f, a, c);
    let tr = ar.plus(a, c);
    // Four times the square is the square of the double.
    closed(ar, f, one, one);
    let two = ar.plus(one, one);
    closed(ar, f, two, two);
    closed(ar, f, b, one);
    distributes(ar, f, b, one, one);
    closed(ar, f, b, two);
    closed(ar, f, two, b);
    assert(ar.plus(b, b) == ar.times(two, b));
    lemma_squares(ar, f, two, two, b, b);
    closed(ar, f, two, one);
    distributes(ar, f, two, one, one);
    assert(ar.times(two, two) == num(FOUR));
    closed(ar, f, b, b);
    times_associates(ar, f, num(FOUR), b, b);
    // The halves.
    closed(ar, f, tr, disc);
    lemma_halved(ar, f, l1, ar.plus(tr, disc));
    closed(ar, f, l2, l2);
    crate::algebra::lemma_difference_is(ar, f, ar.plus(l2, l2), tr, disc);
    lemma_halved(ar, f, l2, ar.minus(tr, disc));
    if !num(0).at_most(l2) {
        let x = ar.minus(l1, c);
        let y = b;
        closed(ar, f, l1, c);
        closed(ar, f, x, x);
        closed(ar, f, y, y);
        let sq = ar.plus(ar.times(x, x), ar.times(y, y));
        closed(ar, f, ar.times(x, x), ar.times(y, y));
        let norm = ar.sqrt(sq);
        assert(norm.max(num(LEAST)) == norm);
        assert(f(norm) && ar.times(norm, norm) == sq);
        let (vx, vy) = (ar.over(x, norm), ar.over(y, norm));
        closed(ar, f, x, norm);
        closed(ar, f, y, norm);
        assert(l1.max(num(0)) == l1);
        closed(ar, f, vx, vx);
        closed(ar, f, vy, vy);
        closed(ar, f, vx, vy);
        closed(ar, f, l1, vx);
        closed(ar, f, l1, vy);
        closed(ar, f, ar.times(l1, vx), vx);
        closed(ar, f, ar.times(l1, vy), vy);
        closed(ar, f, ar.times(l1, vx), vy);
        let p = projected(ar, a, b, c);
        times_associates(ar, f, l1, vx, vx);
        times_associates(ar, f, l1, vy, vy);
        times_associates(ar, f, l1, vx, vy);
        // vx vx + vy vy == 1
        let unit = ar.plus(ar.times(vx, vx), ar.times(vy, vy));
        closed(ar, f, ar.times(vx, vx), ar.times(vy, vy));
        lemma_squares(ar, f, vx, vx, norm, norm);
        lemma_squares(ar, f, vy, vy, norm, norm);
        closed(ar, f, norm, norm);
        let nn = ar.times(norm, norm);
        distributes(ar, f, nn, ar.times(vx, vx), ar.times(vy, vy));
        closed(ar, f, nn, ar.times(vx, vx));
        closed(ar, f, nn, ar.times(vy, vy));
        closed(ar, f, nn, unit);
        closed(ar, f, nn, one);
        crate::algebra::lemma_product_not_zero(ar, f, norm, norm);
        assert(ar.times(unit, nn) == ar.times(one, nn));
        crate::exact::times_cancels(ar, f, unit, one, nn);
        distributes(ar, f, l1, ar.times(vx, vx), ar.times(vy, vy));
        closed(ar, f, l1, one);
        assert(ar.plus(p.aa, p.bb) == l1);
        // The product of the sills.
        lemma_squares(ar, f, ar.times(l1, vx), ar.times(l1, vy), vx, vy);
        lemma_squares(ar, f, ar.times(l1, vx), ar.times(l1, vx), vy, vy);
        lemma_squares(ar, f, l1, l1, vx, vy);
        lemma_squares(ar, f, l1, l1, vx, vx);
        let ll = ar.times(l1, l1);
        closed(ar, f, l1, l1);
        let (xx, yy, xy) = (ar.times(vx, vx), ar.times(vy, vy), ar.times(vx, vy));
        assert(ar.times(p.aa, p.bb) == ar.times(ar.times(ll, xy), xy));
        assert(ar.times(p.ab, p.ab) == ar.times(ar.times(ll, xx), yy));
        times_associates(ar, f, ll, xy, xy);
        times_associates(ar, f, ll, xx, yy);
        lemma_squares(ar, f, vx, vx, vy, vy);
        assert(ar.times(xy, xy) == ar.times(xx, yy));
        // b vx + c vy == l1 vy
        let s = ar.plus(ar.times(b, vx), ar.times(c, vy));
        closed(ar, f, b, vx);
        closed(ar, f, c, vy);
        closed(ar, f, ar.times(b, vx), ar.times(c, vy));
        assert(s == ar.times(l1, vy)) by {
            distributes(ar, f, norm, ar.times(b, vx), ar.times(c, vy));
            closed(ar, f, norm, ar.times(b, vx));
            closed(ar, f, norm, ar.times(c, vy));
            closed(ar, f, norm, s);
            times_associates(ar, f, b, vx, norm);
            times_associates(ar, f, c, vy, norm);
            times_associates(ar, f, l1, vy, norm);
            closed(ar, f, b, x);
            closed(ar, f, c, b);
            closed(ar, f, b, c);
            closed(ar, f, l1, b);
            // b x + c b == b (x + c) == b l1
            distributes(ar, f, b, x, c);
            closed(ar, f, b, l1);
            assert(ar.times(s, norm) == ar.times(ar.times(l1, vy), norm));
            crate::exact::times_cancels(ar, f, s, ar.times(l1, vy), norm);
        }
        lemma_stretched(ar, f, b, c, l1, vx, vy, vx, s);
        lemma_stretched(ar, f, b, c, l1, vx, vy, vy, s);
        closed(ar, f, ar.times(l1, vy), vx);
        times_associates(ar, f, l1, vy, vx);
    }
}

/// `(b vx + c vy) l v == l vy l v` for either `v`.
proof fn lemma_stretched<F: Fn(Op, Double, Double) -> Double>(
    ar: Arithmetic<F>,
    f: Numbers,
    b: Double,
    c: Double,
    l: Double,
    vx: Double,
    vy: Double,
    v: Double,
    s: Double,
)
    requires
        exact(ar, f),
        f(b) && f(c) && f(l) && f(vx) && f(vy) && f(v),
        s == ar.plus(ar.times(b, vx), ar.times(c, vy)),
        s == ar.times(l, vy),
    ensures
        ar.plus(
            ar.times(b, ar.times(ar.times(l, vx), v)),
            ar.times(c, ar.times(ar.times(l, vy), v)),
        ) == ar.times(l, ar.times(ar.times(l, vy), v)),
{
    let k = ar.times(l, v);
    closed(ar, f, l, v);
    closed(ar, f, l, vx);
    closed(ar, f, l, vy);
    closed(ar, f, vx, v);
    closed(ar, f, vy, v);
    lemma_moved(ar, f, l, vx, v);
    lemma_moved(ar, f, l, vy, v);
    closed(ar, f, k, vx);
    closed(ar, f, k, vy);
    lemma_pulled(ar, f, b, k, vx);
    lemma_pulled(ar, f, c, k, vy);
    lemma_pulled(ar, f, l, k, vy);
    closed(ar, f, b, vx);
    closed(ar, f, c, vy);
    distributes(ar, f, k, ar.times(b, vx), ar.times(c, vy));
}

proof fn lemma_moved<F: Fn(Op, Double, Double) -> Double>(
    ar: Arithmetic<F>,
    f: Numbers,
    l: Double,
    p: Double,
    q: Double,
)
    requires
        exact(ar, f),
        f(l) && f(p) && f(q),
    ensures
        ar.times(ar.times(l, p), q) == ar.times(ar.times(l, q), p),
{
    closed(ar, f, p, q);
    times_associates(ar, f, l, p, q);
    times_associates(ar, f, l, q, p);
}

proof fn lemma_pulled<F: Fn(Op, Double, Double) -> Double>(
    ar: Arithmetic<F>,
    f: Numbers,
    b: Double,
    k: Double,
    v: Double,
)
    requires
        exact(ar, f),
        f(b) && f(k) && f(v),
    ensures
        ar.times(b, ar.times(k, v)) == ar.times(k, ar.times(b, v)),
{
    closed(ar, f, b, k);
    times_associates(ar, f, b, k, v);
    times_associates(ar, f, k, b, v);
}

proof fn lemma_halved<F: Fn(Op, Double, Double) -> Double>(
    ar: Arithmetic<F>,
    f: Numbers,
    l: Double,
    s: Double,
)
    requires
        exact(ar, f),
        halves(ar, f),
        f(l),
        f(s),
        ar.plus(l, l) == s,
    ensures
        l == ar.times(num(HALF), s),
{
    let half = num(HALF);
    distributes(ar, f, half, l, l);
    closed(ar, f, half, l);
    crate::algebra::lemma_two_halves(ar, f, l);
}

/// What a curve adds to the error of a fit: its misses squared, as its bins weigh.
pub open spec fn squared_misses<F: Fn(Op, Double, Double) -> Double>(
    ar: Arithmetic<F>,
    curve: LmcCurve,
    sills: Seq<Double>,
) -> Seq<Double> {
    Seq::new(
        curve.gamma@.len(),
        |i: int|
            ar.times(
                curve.w@[i],
                ar.times(misses(ar, curve, sills)[i], misses(ar, curve, sills)[i]),
            ),
    )
}

/// The error of a fit is the sum of the squared misses, as the bins weigh, of the curves of
/// both variables and twice those of the pair.
pub proof fn errors_sum_squared_misses<F: Fn(Op, Double, Double) -> Double>(
    ar: Arithmetic<F>,
    c: Numbers,
    cs: Curves,
    sills: Seq<PairSills>,
)
    requires
        exact(ar, c),
        sills.len() > 0,
        curve_numeric(c, cs.a, sills.len()),
        curve_numeric(c, cs.b, sills.len()),
        curve_numeric(c, cs.ab, sills.len()),
        forall|pair: int| 0 <= pair < 3 ==> all_numbers(c, #[trigger] entries_for(sills, pair)),
        num(TWO) == ar.plus(num(ONE), num(ONE)),
    ensures
        ({
            let a = ar.accumulated(squared_misses(ar, cs.a, entries_for(sills, 0)));
            let b = ar.accumulated(squared_misses(ar, cs.b, entries_for(sills, 1)));
            let ab = ar.accumulated(squared_misses(ar, cs.ab, entries_for(sills, 2)));
            weighted_error(ar, cs, sills) == ar.plus(ar.plus(a, b), ar.plus(ab, ab))
        }),
{
    closed(ar, c, num(0), num(ONE));
    closed(ar, c, num(ONE), num(ONE));
    let m = cs.a.gamma@.len() as int;
    let sa = squared_misses(ar, cs.a, entries_for(sills, 0));
    let sb = squared_misses(ar, cs.b, entries_for(sills, 1));
    let sab = squared_misses(ar, cs.ab, entries_for(sills, 2));
    assert(sa.take(sa.len() as int) =~= sa);
    assert(sb.take(sb.len() as int) =~= sb);
    assert(sab.take(sab.len() as int) =~= sab);
    let (a, b, ab) = (ar.accumulated(sa), ar.accumulated(sb), ar.accumulated(sab));
    lemma_curve(ar, c, cs.a, sills, 0, sa.len() as int, num(0));
    closed(ar, c, a, num(0));
    closed(ar, c, a, num(ONE));
    lemma_curve(ar, c, cs.b, sills, 1, sb.len() as int, a);
    closed(ar, c, b, num(ONE));
    closed(ar, c, a, b);
    lemma_curve(ar, c, cs.ab, sills, 2, sab.len() as int, ar.plus(a, b));
    closed(ar, c, ab, num(ONE));
    distributes(ar, c, ab, num(ONE), num(ONE));
    closed(ar, c, ab, num(TWO));
}

proof fn lemma_curve<F: Fn(Op, Double, Double) -> Double>(
    ar: Arithmetic<F>,
    c: Numbers,
    curve: LmcCurve,
    sills: Seq<PairSills>,
    pair: int,
    m: int,
    start: Double,
)
    requires
        exact(ar, c),
        sills.len() > 0,
        curve_numeric(c, curve, sills.len()),
        all_numbers(c, entries_for(sills, pair)),
        c(num(TWO)),
        c(start),
        0 <= m <= curve.gamma@.len(),
    ensures
        ({
            let sq = squared_misses(ar, curve, entries_for(sills, pair)).take(m);
            let mult = if pair == 2 {
                num(TWO)
            } else {
                num(ONE)
            };
            &&& c(ar.accumulated(sq))
            &&& curve_error(ar, curve, sills, pair, m, start) == ar.plus(
                start,
                ar.times(mult, ar.accumulated(sq)),
            )
        }),
    decreases m,
{
    let entries = entries_for(sills, pair);
    let all = squared_misses(ar, curve, entries);
    let mult = if pair == 2 {
        num(TWO)
    } else {
        num(ONE)
    };
    closed(ar, c, num(0), num(ONE));
    closed(ar, c, mult, num(0));
    closed(ar, c, start, num(0));
    if m > 0 {
        lemma_curve(ar, c, curve, sills, pair, m - 1, start);
        let n = sills.len() as int;
        let k = m - 1;
        let row = curve.basis@[k]@;
        assert(all_numbers(c, row) && row.len() == n);
        crate::exact::lemma_dot_start(ar, c, entries, row, n);
        crate::exact_kriging::lemma_dot_is_span(ar, c, num(0), entries, row, n);
        lemma_span_closed(ar, c, row, entries, 0, n);
        let fit = span_sum(ar, row, entries, 0, n);
        closed(ar, c, fit, num(0));
        assert(c(curve.gamma@[k]) && c(curve.w@[k]));
        closed(ar, c, curve.gamma@[k], fit);
        let miss = ar.minus(curve.gamma@[k], fit);
        assert(misses(ar, curve, entries)[k] == miss);
        let w = curve.w@[k];
        closed(ar, c, miss, miss);
        let mm = ar.times(miss, miss);
        closed(ar, c, w, mm);
        closed(ar, c, mult, w);
        times_associates(ar, c, ar.times(mult, w), miss, miss);
        times_associates(ar, c, mult, w, mm);
        assert(all.take(m).drop_last() =~= all.take(k));
        assert(all.take(m).last() == all[k]);
        let before = ar.accumulated(all.take(k));
        closed(ar, c, before, all[k]);
        distributes(ar, c, mult, before, all[k]);
        closed(ar, c, mult, before);
        closed(ar, c, mult, all[k]);
        crate::exact::plus_associates(
            ar,
            c,
            start,
            ar.times(mult, before),
            ar.times(mult, all[k]),
        );
    } else {
        assert(all.take(0) =~= Seq::empty());
    }
}

/// Row `i` of the factor of a matrix, up to column `k`.
pub open spec fn factor_row<F: Fn(Op, Double, Double) -> Double>(
    ar: Arithmetic<F>,
    m: Seq<Seq<Double>>,
    i: int,
    k: int,
) -> Seq<Double> {
    Seq::new((k + 1) as nat, |j: int| psd_lower(ar, m, i, j))
}

proof fn lemma_remainder<F: Fn(Op, Double, Double) -> Double>(
    ar: Arithmetic<F>,
    c: Numbers,
    m: Seq<Seq<Double>>,
    i: int,
    k: int,
    j: nat,
)
    requires
        exact(ar, c),
        0 <= j <= k,
        c(m[i][k]),
        all_numbers(c, factor_row(ar, m, i, k)),
        all_numbers(c, factor_row(ar, m, k, k)),
    ensures
        c(psd_remainder(ar, m, i, k, j)),
        ar.plus(
            span_sum(ar, factor_row(ar, m, i, k), factor_row(ar, m, k, k), 0, j as int),
            psd_remainder(ar, m, i, k, j),
        ) == m[i][k],
    decreases j,
{
    let (a, b) = (factor_row(ar, m, i, k), factor_row(ar, m, k, k));
    closed(ar, c, m[i][k], num(0));
    if j > 0 {
        let t = (j - 1) as nat;
        lemma_remainder(ar, c, m, i, k, t);
        let before = psd_remainder(ar, m, i, k, t);
        assert(c(a[t as int]) && c(b[t as int]));
        let p = ar.times(a[t as int], b[t as int]);
        closed(ar, c, a[t as int], b[t as int]);
        lemma_minus_undoes(ar, c, before, p);
        let s = span_sum(ar, a, b, 0, t as int);
        lemma_span_closed(ar, c, a, b, 0, t as int);
        crate::exact::plus_associates(ar, c, s, p, ar.minus(before, p));
    }
}

/// The factor that positive semi-definiteness is told by is a root of the matrix: where a
/// pivot does not vanish, the products of the rows of the factor sum to the entries of its
/// column.
pub proof fn factors_are_roots_of_sills<F: Fn(Op, Double, Double) -> Double>(
    ar: Arithmetic<F>,
    c: Numbers,
    m: Seq<Seq<Double>>,
    i: int,
    k: int,
)
    requires
        exact(ar, c),
        0 <= k <= i,
        c(m[i][k]),
        c(m[k][k]),
        all_numbers(c, factor_row(ar, m, i, k)),
        all_numbers(c, factor_row(ar, m, k, k)),
        ({
            let p = psd_remainder(ar, m, k, k, k as nat);
            let d = ar.sqrt(p);
            &&& p.positive()
            &&& c(d)
            &&& d != num(0)
            &&& ar.times(d, d) == p
            &&& ar.times(num(crate::lmc::VANISHING), ar.sqrt(crate::linalg::scale_of(m))).below(d)
        }),
    ensures
        span_sum(ar, factor_row(ar, m, i, k), factor_row(ar, m, k, k), 0, k + 1) == m[i][k],
{
    let (a, b) = (factor_row(ar, m, i, k), factor_row(ar, m, k, k));
    let p = psd_remainder(ar, m, k, k, k as nat);
    let r = psd_remainder(ar, m, i, k, k as nat);
    let d = ar.sqrt(p);
    assert(p.max(num(0)) == p);
    lemma_remainder(ar, c, m, i, k, k as nat);
    lemma_remainder(ar, c, m, k, k, k as nat);
    closed(ar, c, d, d);
    crate::algebra::lemma_quotient_is(ar, c, d, p, d);
    assert(b[k] == d);
    closed(ar, c, r, d);
    assert(a[k] == ar.over(r, d));
}

} // verus!

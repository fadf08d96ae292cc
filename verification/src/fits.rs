//! Least squares and sample statistics over an arithmetic without rounding: residuals
//! carry nothing of the covariates, and correlations are those of the sample.

use vstd::prelude::*;

use crate::algebra::{lemma_minus_undoes, lemma_rows_added};
use crate::arith::{num, Arithmetic, Op};
use crate::collocated::{correlation_of, deviation_of, joint_scatter, stats_outcome};
use crate::double::{Double, ONE};
use crate::exact::{
    all_numbers, applied, closed, elimination_satisfies_the_system, exact, lemma_span_agrees,
    lemma_span_closed, span_sum, Numbers,
};
use crate::exact_collocated::lemma_span_scaled;
use crate::exact_kriging::{counts, lemma_average_closed, lemma_dot_is_span, lemma_total_closed};
use crate::regression::{
    covariate_count, design, design_product, design_values, ols_matrix, ols_outcome, ols_vector,
    rows_even, OlsTrend,
};

verus! {

/// Covariate `a` of the observations; one for the intercept, which comes first.
pub open spec fn regressor(rows: Seq<Vec<Double>>, a: int) -> Seq<Double> {
    Seq::new(
        rows.len(),
        |i: int|
            if a == 0 {
                num(ONE)
            } else {
                rows[i]@[a - 1]
            },
    )
}

/// What the trend leaves of the values.
pub open spec fn residuals_of<F: Fn(Op, Double, Double) -> Double>(
    ar: Arithmetic<F>,
    trend: OlsTrend,
    rows: Seq<Vec<Double>>,
    values: Seq<Double>,
) -> Seq<Double> {
    Seq::new(rows.len(), |i: int| ar.minus(values[i], trend.trend_at(ar, rows[i]@)))
}

/// The rows are numbers.
pub open spec fn rows_numeric(c: Numbers, rows: Seq<Vec<Double>>) -> bool {
    forall|i: int| 0 <= i < rows.len() ==> all_numbers(c, (#[trigger] rows[i])@)
}

/// Row `i` of the design: one and the covariates.
spec fn design_row(rows: Seq<Vec<Double>>, i: int, k: nat) -> Seq<Double> {
    Seq::new(k, |a: int| design(rows, i, a))
}

/// Row `a` of the normal matrix over the first `n` observations.
spec fn normal_row<F: Fn(Op, Double, Double) -> Double>(
    ar: Arithmetic<F>,
    rows: Seq<Vec<Double>>,
    a: int,
    k: nat,
    n: int,
) -> Seq<Double> {
    Seq::new(k, |b: int| design_product(ar, rows, a, b, n))
}

proof fn lemma_design_closed<F: Fn(Op, Double, Double) -> Double>(
    ar: Arithmetic<F>,
    c: Numbers,
    rows: Seq<Vec<Double>>,
    a: int,
    b: int,
    n: int,
)
    requires
        exact(ar, c),
        rows_numeric(c, rows),
        rows_even(rows, covariate_count(rows)),
        0 <= a <= covariate_count(rows),
        0 <= b <= covariate_count(rows),
        0 <= n <= rows.len(),
    ensures
        c(design_product(ar, rows, a, b, n)),
        design_product(ar, rows, a, b, n) == design_product(ar, rows, b, a, n),
        n < rows.len() ==> c(design(rows, n, a)),
    decreases n,
{
    closed(ar, c, num(0), num(ONE));
    if n < rows.len() {
        assert(rows[n]@.len() == covariate_count(rows) && all_numbers(c, rows[n]@));
        if a > 0 {
            assert(c(rows[n]@[a - 1]));
        }
    }
    if n > 0 {
        lemma_design_closed(ar, c, rows, a, b, n - 1);
        lemma_design_closed(ar, c, rows, b, a, n - 1);
        let (x, y) = (design(rows, n - 1, a), design(rows, n - 1, b));
        closed(ar, c, x, y);
        closed(ar, c, design_product(ar, rows, a, b, n - 1), ar.times(x, y));
    }
}

/// Sums over coefficients and over observations can be exchanged.
proof fn lemma_exchanged<F: Fn(Op, Double, Double) -> Double>(
    ar: Arithmetic<F>,
    c: Numbers,
    rows: Seq<Vec<Double>>,
    beta: Seq<Double>,
    fit: Seq<Double>,
    a: int,
    n: int,
)
    requires
        exact(ar, c),
        rows_numeric(c, rows),
        rows_even(rows, covariate_count(rows)),
        all_numbers(c, beta),
        beta.len() == 1 + covariate_count(rows),
        fit.len() == rows.len(),
        forall|i: int|
            0 <= i < rows.len() ==> #[trigger] fit[i] == span_sum(
                ar,
                design_row(rows, i, beta.len()),
                beta,
                0,
                beta.len() as int,
            ),
        0 <= a < beta.len(),
        0 <= n <= rows.len(),
    ensures
        span_sum(ar, normal_row(ar, rows, a, beta.len(), n), beta, 0, beta.len() as int)
            == span_sum(ar, fit, regressor(rows, a), 0, n),
    decreases n,
{
    let k = beta.len();
    let now = normal_row(ar, rows, a, k, n);
    closed(ar, c, num(0), num(0));
    if n == 0 {
        assert forall|b: int| 0 <= b < k implies #[trigger] now[b] == num(0) by {}
        crate::uncorrelated::lemma_zero_row(ar, c, now, beta, k as int);
    } else {
        let i = n - 1;
        lemma_exchanged(ar, c, rows, beta, fit, a, i);
        let before = normal_row(ar, rows, a, k, i);
        let row = design_row(rows, i, k);
        let x = design(rows, i, a);
        let scaled = Seq::new(k, |b: int| ar.times(x, row[b]));
        lemma_design_closed(ar, c, rows, a, a, i);
        assert forall|b: int| 0 <= b < k implies c(#[trigger] before[b]) && c(row[b]) && c(
            scaled[b],
        ) by {
            lemma_design_closed(ar, c, rows, a, b, i);
            lemma_design_closed(ar, c, rows, b, a, i);
            closed(ar, c, x, row[b]);
        }
        assert forall|b: int| 0 <= b < k implies c(#[trigger] row[b]) by {
            assert(c(before[b]));
        }
        assert forall|b: int| 0 <= b < k implies c(#[trigger] scaled[b]) by {
            assert(c(before[b]));
        }
        lemma_rows_added(ar, c, before, scaled, now, beta, k as int);
        lemma_span_scaled(ar, c, x, row, scaled, beta, k as int);
        lemma_span_closed(ar, c, row, beta, 0, k as int);
        assert(fit[i] == span_sum(ar, row, beta, 0, k as int));
        closed(ar, c, x, fit[i]);
    }
}

/// A fitted trend is the intercept and the covariates, each times its slope, and its
/// residuals carry nothing of the covariates: they sum to zero, and so do their products
/// with every covariate.
pub proof fn residuals_carry_no_trend<F: Fn(Op, Double, Double) -> Double>(
    ar: Arithmetic<F>,
    c: Numbers,
    rows: Seq<Vec<Double>>,
    values: Seq<Double>,
    trend: OlsTrend,
    a: int,
)
    requires
        exact(ar, c),
        rows_numeric(c, rows),
        all_numbers(c, values),
        ols_outcome(ar, rows, values, Ok(trend)),
        trend.slopes().len() == 1 + covariate_count(rows),
        1 + covariate_count(rows) <= usize::MAX,
        0 <= a <= covariate_count(rows),
    ensures
        span_sum(
            ar,
            residuals_of(ar, trend, rows, values),
            regressor(rows, a),
            0,
            rows.len() as int,
        ) == num(0),
        all_numbers(c, residuals_of(ar, trend, rows, values)),
        forall|i: int|
            0 <= i < rows.len() ==> trend.trend_at(ar, (#[trigger] rows[i])@) == ar.plus(
                trend.slopes()[0],
                span_sum(ar, rows[i]@, trend.slopes().skip(1), 0, rows[i]@.len() as int),
            ),
{
    let n = rows.len() as int;
    let k = 1 + covariate_count(rows);
    let m = ols_matrix(ar, rows);
    let b = ols_vector(ar, rows, values);
    let beta = trend.slopes();
    closed(ar, c, num(0), num(ONE));
    assert forall|r: int| 0 <= r < m.len() implies (#[trigger] m[r]).len() == m.len()
        && all_numbers(c, m[r]) by {
        assert forall|j: int| 0 <= j < m[r].len() implies c(#[trigger] m[r][j]) by {
            lemma_design_closed(ar, c, rows, r, j, n);
            lemma_design_closed(ar, c, rows, j, r, n);
        }
    }
    assert forall|r: int| 0 <= r < b.len() implies c(#[trigger] b[r]) by {
        lemma_values(ar, c, rows, values, r, n);
    }
    elimination_satisfies_the_system(ar, c, m, b, beta);
    // The fitted values.
    let fit = Seq::new(
        rows.len(),
        |i: int| span_sum(ar, design_row(rows, i, k), beta, 0, k as int),
    );
    assert forall|i: int| 0 <= i < n implies trend.trend_at(ar, (#[trigger] rows[i])@) == ar.plus(
        beta[0],
        span_sum(ar, rows[i]@, beta.skip(1), 0, rows[i]@.len() as int),
    ) && trend.trend_at(ar, rows[i]@) == fit[i] && c(fit[i]) by {
        lemma_fit(ar, c, rows, trend, i);
    }
    // The normal equations.
    let row = normal_row(ar, rows, a, k, n);
    lemma_exchanged(ar, c, rows, beta, fit, a, n);
    assert forall|j: int| 0 <= j < k implies #[trigger] row[j] == m[a][j] by {
        lemma_design_closed(ar, c, rows, a, j, n);
    }
    lemma_span_agrees(ar, row, m[a], beta, beta, 0, k as int);
    assert(b[a] == applied(ar, m, beta)[a]);
    lemma_values(ar, c, rows, values, a, n);
    let x = regressor(rows, a);
    assert forall|i: int| 0 <= i < n implies c(#[trigger] x[i]) by {
        lemma_design_closed(ar, c, rows, a, a, i);
    }
    let rest = residuals_of(ar, trend, rows, values);
    assert forall|i: int| 0 <= i < n implies #[trigger] values[i] == ar.plus(rest[i], fit[i])
        && c(rest[i]) by {
        assert(trend.trend_at(ar, rows[i]@) == fit[i]);
        assert(c(values[i]));
        closed(ar, c, values[i], fit[i]);
    }
    assert forall|i: int| 0 <= i < n implies c(#[trigger] rest[i]) by {
        assert(values[i] == ar.plus(rest[i], fit[i]));
    }
    assert forall|i: int| 0 <= i < n implies c(#[trigger] fit[i]) by {
        assert(trend.trend_at(ar, rows[i]@) == fit[i]);
    }
    lemma_rows_added(ar, c, rest, fit, values, x, n);
    let (p, q) = (span_sum(ar, rest, x, 0, n), span_sum(ar, fit, x, 0, n));
    lemma_span_closed(ar, c, rest, x, 0, n);
    lemma_span_closed(ar, c, fit, x, 0, n);
    closed(ar, c, q, num(0));
    lemma_minus_undoes(ar, c, p, q);
    lemma_minus_undoes(ar, c, num(0), q);
}

/// The products of a covariate with the values.
proof fn lemma_values<F: Fn(Op, Double, Double) -> Double>(
    ar: Arithmetic<F>,
    c: Numbers,
    rows: Seq<Vec<Double>>,
    values: Seq<Double>,
    a: int,
    n: int,
)
    requires
        exact(ar, c),
        rows_numeric(c, rows),
        rows_even(rows, covariate_count(rows)),
        all_numbers(c, values),
        rows.len() == values.len(),
        0 <= a <= covariate_count(rows),
        0 <= n <= rows.len(),
    ensures
        design_values(ar, rows, values, a, n) == span_sum(ar, values, regressor(rows, a), 0, n),
        c(design_values(ar, rows, values, a, n)),
    decreases n,
{
    closed(ar, c, num(0), num(0));
    if n > 0 {
        lemma_values(ar, c, rows, values, a, n - 1);
        lemma_design_closed(ar, c, rows, a, a, n - 1);
        let x = design(rows, n - 1, a);
        assert(c(values[n - 1]));
        closed(ar, c, x, values[n - 1]);
        closed(ar, c, design_values(ar, rows, values, a, n - 1), ar.times(x, values[n - 1]));
    }
}

/// The fitted value of an observation.
proof fn lemma_fit<F: Fn(Op, Double, Double) -> Double>(
    ar: Arithmetic<F>,
    c: Numbers,
    rows: Seq<Vec<Double>>,
    trend: OlsTrend,
    i: int,
)
    requires
        exact(ar, c),
        rows_numeric(c, rows),
        rows_even(rows, covariate_count(rows)),
        all_numbers(c, trend.slopes()),
        trend.slopes().len() == 1 + covariate_count(rows),
        0 <= i < rows.len(),
    ensures
        trend.trend_at(ar, rows[i]@) == ar.plus(
            trend.slopes()[0],
            span_sum(ar, rows[i]@, trend.slopes().skip(1), 0, rows[i]@.len() as int),
        ),
        trend.trend_at(ar, rows[i]@) == span_sum(
            ar,
            design_row(rows, i, trend.slopes().len()),
            trend.slopes(),
            0,
            trend.slopes().len() as int,
        ),
        c(trend.trend_at(ar, rows[i]@)),
{
    let beta = trend.slopes();
    let rest = beta.skip(1);
    let p = covariate_count(rows) as int;
    let row = rows[i]@;
    let full = design_row(rows, i, beta.len());
    assert(row.len() == p && all_numbers(c, row));
    assert forall|j: int| 0 <= j < rest.len() implies c(#[trigger] rest[j]) by {
        assert(c(beta[j + 1]));
    }
    assert(c(beta[0]));
    lemma_dot_is_span(ar, c, beta[0], rest, row, p);
    closed(ar, c, num(0), num(ONE));
    assert forall|j: int| 0 <= j < full.len() implies c(#[trigger] full[j]) by {
        if j > 0 {
            assert(c(row[j - 1]));
        }
    }
    crate::exact::lemma_span_first(ar, c, full, beta, 0, p + 1);
    closed(ar, c, beta[0], num(ONE));
    lemma_shifted(ar, full, beta, row, rest, p);
    lemma_span_closed(ar, c, full, beta, 0, p + 1);
}

proof fn lemma_shifted<F: Fn(Op, Double, Double) -> Double>(
    ar: Arithmetic<F>,
    full: Seq<Double>,
    beta: Seq<Double>,
    row: Seq<Double>,
    rest: Seq<Double>,
    p: int,
)
    requires
        0 <= p,
        forall|j: int| 0 <= j < p ==> full[j + 1] == #[trigger] row[j],
        forall|j: int| 0 <= j < p ==> beta[j + 1] == #[trigger] rest[j],
    ensures
        span_sum(ar, full, beta, 1, p + 1) == span_sum(ar, row, rest, 0, p),
    decreases p,
{
    if p > 0 {
        lemma_shifted(ar, full, beta, row, rest, p - 1);
        assert(full[p] == row[p - 1]);
        assert(beta[p] == rest[p - 1]);
    }
}

/// Products of the deviations of two lists from two numbers.
pub open spec fn joint_deviations<F: Fn(Op, Double, Double) -> Double>(
    ar: Arithmetic<F>,
    xs: Seq<Double>,
    mx: Double,
    ys: Seq<Double>,
    my: Double,
) -> Seq<Double> {
    Seq::new(xs.len(), |i: int| ar.times(ar.minus(xs[i], mx), ar.minus(ys[i], my)))
}

proof fn lemma_scatter<F: Fn(Op, Double, Double) -> Double>(
    ar: Arithmetic<F>,
    xs: Seq<Double>,
    mx: Double,
    ys: Seq<Double>,
    my: Double,
    n: int,
)
    requires
        0 <= n <= xs.len(),
    ensures
        joint_scatter(ar, xs, mx, ys, my, n) == ar.accumulated(
            joint_deviations(ar, xs, mx, ys, my).take(n),
        ),
    decreases n,
{
    let all = joint_deviations(ar, xs, mx, ys, my);
    if n > 0 {
        lemma_scatter(ar, xs, mx, ys, my, n - 1);
        assert(all.take(n).drop_last() =~= all.take(n - 1));
    } else {
        assert(all.take(0) =~= Seq::empty());
    }
}

/// Sample statistics of collocated pairs: with the means of the two lists, the squared
/// standard deviations are the mean squared deviations, and the correlation times both
/// standard deviations is the mean product of the deviations, where it lies between minus
/// one and one.
pub proof fn statistics_are_those_of_the_sample<F: Fn(Op, Double, Double) -> Double>(
    ar: Arithmetic<F>,
    c: Numbers,
    primary: Seq<Double>,
    secondary: Seq<Double>,
    m1: Double,
    m2: Double,
    rho: Double,
    s1: Double,
    s2: Double,
)
    requires
        exact(ar, c),
        counts(ar, c, primary.len()),
        all_numbers(c, primary),
        all_numbers(c, secondary),
        c(m1),
        c(m2),
        ar.times(m1, Double::count(primary.len())) == ar.accumulated(primary),
        ar.times(m2, Double::count(primary.len())) == ar.accumulated(secondary),
        stats_outcome(ar, primary, secondary, Ok((rho, s1, s2))),
        c(s1),
        c(s2),
        s1 != num(0),
        s2 != num(0),
        forall|a: Double| c(a) && c(ar.sqrt(a)) ==> ar.times(#[trigger] ar.sqrt(a), ar.sqrt(a)) == a,
        crate::collocated::is_correlation(
            ar.over(
                ar.over(
                    ar.accumulated(joint_deviations(ar, primary, m1, secondary, m2)),
                    Double::count(primary.len()),
                ),
                ar.times(s1, s2),
            ),
        ),
    ensures
        ar.times(ar.times(s1, s1), Double::count(primary.len())) == ar.accumulated(
            joint_deviations(ar, primary, m1, primary, m1),
        ),
        ar.times(ar.times(s2, s2), Double::count(primary.len())) == ar.accumulated(
            joint_deviations(ar, secondary, m2, secondary, m2),
        ),
        ar.times(ar.times(rho, ar.times(s1, s2)), Double::count(primary.len())) == ar.accumulated(
            joint_deviations(ar, primary, m1, secondary, m2),
        ),
{
    let n = primary.len() as int;
    let q = Double::count(primary.len());
    lemma_average_closed(ar, c, primary);
    lemma_average_closed(ar, c, secondary);
    crate::exact::times_cancels(ar, c, m1, ar.average_of(primary), q);
    crate::exact::times_cancels(ar, c, m2, ar.average_of(secondary), q);
    let d11 = joint_deviations(ar, primary, m1, primary, m1);
    let d22 = joint_deviations(ar, secondary, m2, secondary, m2);
    let d12 = joint_deviations(ar, primary, m1, secondary, m2);
    lemma_scatter(ar, primary, m1, primary, m1, n);
    lemma_scatter(ar, secondary, m2, secondary, m2, n);
    lemma_scatter(ar, primary, m1, secondary, m2, n);
    assert(d11.take(n) =~= d11 && d22.take(n) =~= d22 && d12.take(n) =~= d12);
    assert forall|i: int| 0 <= i < n implies c(#[trigger] d11[i]) && c(d22[i]) && c(d12[i]) by {
        assert(c(primary[i]) && c(secondary[i]));
        let (a, b) = (ar.minus(primary[i], m1), ar.minus(secondary[i], m2));
        closed(ar, c, primary[i], m1);
        closed(ar, c, secondary[i], m2);
        closed(ar, c, a, a);
        closed(ar, c, b, b);
        closed(ar, c, a, b);
    }
    assert(all_numbers(c, d11) && all_numbers(c, d22) && all_numbers(c, d12)) by {
        assert forall|i: int| 0 <= i < n implies c(#[trigger] d22[i]) by {
            assert(c(d11[i]));
        }
        assert forall|i: int| 0 <= i < n implies c(#[trigger] d12[i]) by {
            assert(c(d11[i]));
        }
    }
    lemma_total_closed(ar, c, d11);
    lemma_total_closed(ar, c, d22);
    lemma_total_closed(ar, c, d12);
    closed(ar, c, ar.accumulated(d11), q);
    closed(ar, c, ar.accumulated(d22), q);
    closed(ar, c, ar.accumulated(d12), q);
    assert(s1 == deviation_of(ar, primary) && s2 == deviation_of(ar, secondary));
    let v1 = ar.over(ar.accumulated(d11), q);
    let v2 = ar.over(ar.accumulated(d22), q);
    assert(s1 == ar.sqrt(v1) && s2 == ar.sqrt(v2));
    assert(ar.times(ar.sqrt(v1), ar.sqrt(v1)) == v1);
    assert(ar.times(ar.sqrt(v2), ar.sqrt(v2)) == v2);
    crate::algebra::lemma_product_not_zero(ar, c, s1, s2);
    let v12 = ar.over(ar.accumulated(d12), q);
    closed(ar, c, v12, ar.times(s1, s2));
    assert(rho == correlation_of(ar, primary, secondary));
    assert(rho == ar.over(v12, ar.times(s1, s2)));
}

} // verus!

//! Secondary information over an arithmetic without rounding: where it is not
//! correlated with the primary, it has no influence.

use vstd::prelude::*;

use crate::arith::{num, Arithmetic, Op};
use crate::cokriging::{gathered, CoSetting};
use crate::covariance::{no_separation, Covariance};
use crate::double::{Double, ONE};
use crate::error::GeostatError;
use crate::exact::{
    all_numbers, applied, closed, elimination_finds_the_solution, elimination_satisfies_the_system,
    exact, lemma_dot_start, lemma_span_agrees, lemma_span_closed, span_sum, square_of, Numbers,
};
use crate::exact_definite::{factor_satisfies_the_system, roots_exact, symmetric_of};
use crate::exact_kriging::computes_in;
use crate::indicator::{
    centered_flags, flag, ik_estimate, indicator_sigma, soft_cell, soft_cross, soft_estimate,
    soft_matrix, soft_rhs, Cutoffs, MarkovBayesCalibration,
};
use crate::kriging::{KrigingEstimate, Setting};
use crate::linalg::{entry, row_of, solution};
use crate::simple::{sk_cell, sk_matrix, sk_rhs, sk_weights};

verus! {

/// Where the weights from `n` on are zero, they add nothing to a sum.
pub(crate) proof fn lemma_zero_weights<F: Fn(Op, Double, Double) -> Double>(
    ar: Arithmetic<F>,
    c: Numbers,
    row: Seq<Double>,
    x: Seq<Double>,
    n: int,
    hi: int,
)
    requires
        exact(ar, c),
        all_numbers(c, row),
        all_numbers(c, x),
        0 <= n <= hi,
        hi <= row.len(),
        hi <= x.len(),
        forall|i: int| n <= i < hi ==> #[trigger] x[i] == num(0),
    ensures
        span_sum(ar, row, x, 0, hi) == span_sum(ar, row, x, 0, n),
    decreases hi,
{
    if hi > n {
        lemma_zero_weights(ar, c, row, x, n, hi - 1);
        assert(x[hi - 1] == num(0));
        assert(c(row[hi - 1]));
        closed(ar, c, row[hi - 1], num(0));
        lemma_span_closed(ar, c, row, x, 0, n);
        closed(ar, c, span_sum(ar, row, x, 0, n), num(0));
    }
}

/// Where the entries before `n` are zero, they add nothing to a sum.
pub(crate) proof fn lemma_zero_row<F: Fn(Op, Double, Double) -> Double>(
    ar: Arithmetic<F>,
    c: Numbers,
    row: Seq<Double>,
    x: Seq<Double>,
    n: int,
)
    requires
        exact(ar, c),
        all_numbers(c, row),
        all_numbers(c, x),
        0 <= n <= row.len(),
        n <= x.len(),
        forall|i: int| 0 <= i < n ==> #[trigger] row[i] == num(0),
    ensures
        span_sum(ar, row, x, 0, n) == num(0),
    decreases n,
{
    closed(ar, c, num(0), num(0));
    if n > 0 {
        lemma_zero_row(ar, c, row, x, n - 1);
        assert(row[n - 1] == num(0));
        assert(c(x[n - 1]));
        closed(ar, c, x[n - 1], num(0));
    }
}

/// A dot product from zero is the sum of the products.
proof fn lemma_dot_from_zero<F: Fn(Op, Double, Double) -> Double>(
    ar: Arithmetic<F>,
    w: Seq<Double>,
    v: Seq<Double>,
    n: int,
)
    requires
        0 <= n,
    ensures
        ar.dot_from(num(0), w, v, n) == span_sum(ar, w, v, 0, n),
    decreases n,
{
    if n > 0 {
        lemma_dot_from_zero(ar, w, v, n - 1);
    }
}

/// Sums of products commute.
proof fn lemma_span_commutes<F: Fn(Op, Double, Double) -> Double>(
    ar: Arithmetic<F>,
    c: Numbers,
    a: Seq<Double>,
    b: Seq<Double>,
    n: int,
)
    requires
        exact(ar, c),
        all_numbers(c, a),
        all_numbers(c, b),
        0 <= n <= a.len(),
        n <= b.len(),
    ensures
        span_sum(ar, a, b, 0, n) == span_sum(ar, b, a, 0, n),
    decreases n,
{
    if n > 0 {
        lemma_span_commutes(ar, c, a, b, n - 1);
        assert(c(a[n - 1]) && c(b[n - 1]));
        closed(ar, c, a[n - 1], b[n - 1]);
    }
}

/// `s` krigs the primary variable of `co` alone, ordinarily and with its direct model;
/// the primary is not correlated with the secondary.
pub open spec fn stands_alone<'a, 'b, const D: usize, F: Fn(Op, Double, Double) -> Double, G: Fn([Double; D]) -> Double, H: Fn([Double; D]) -> Double>(
    co: &CoSetting<'a, D, G>,
    s: &Setting<'b, D, H>,
    ar: Arithmetic<F>,
) -> bool {
    &&& co.datasets@.len() == 2
    &&& !co.config.ridge.is_positive()
    &&& co.datasets@[0].places() == s.data.places()
    &&& co.datasets@[0].attributes() == s.data.attributes()
    &&& s.config.method is Ordinary
    &&& s.measurement_error@.len() == 0
    &&& !s.model.traits.has_power
    &&& co.lmc.cosill(ar, 0, 0) == s.model.sill
    &&& forall|h: Seq<Double>| #[trigger] co.lmc.cross(ar, 0, 0, h) == s.model.remaining(ar, h)
    &&& forall|h: Seq<Double>| #[trigger] co.lmc.cross(ar, 0, 1, h) == num(0)
    &&& forall|h: Seq<Double>| #[trigger] co.lmc.cross(ar, 1, 0, h) == num(0)
}

/// Weights of the primary and its multiplier, with zeros for the secondary.
pub open spec fn padded(w: Seq<Double>, n0: nat, n1: nat) -> Seq<Double> {
    Seq::new(
        n0 + n1 + 2,
        |i: int|
            if i < n0 {
                w[i]
            } else if i == n0 + n1 {
                w[n0 as int]
            } else {
                num(0)
            },
    )
}

/// What a row makes of padded weights.
proof fn lemma_padded_span<F: Fn(Op, Double, Double) -> Double>(
    ar: Arithmetic<F>,
    c: Numbers,
    row: Seq<Double>,
    w: Seq<Double>,
    n0: nat,
    n1: nat,
)
    requires
        exact(ar, c),
        all_numbers(c, row),
        all_numbers(c, w),
        w.len() == n0 + 1,
        row.len() == n0 + n1 + 2,
    ensures
        span_sum(ar, row, padded(w, n0, n1), 0, (n0 + n1 + 2) as int) == ar.plus(
            span_sum(ar, row, w, 0, n0 as int),
            ar.times(row[(n0 + n1) as int], w[n0 as int]),
        ),
        all_numbers(c, padded(w, n0, n1)),
{
    let x = padded(w, n0, n1);
    let n = (n0 + n1) as int;
    closed(ar, c, num(0), num(0));
    assert forall|i: int| 0 <= i < x.len() implies c(#[trigger] x[i]) by {
        if i < n0 {
            assert(c(w[i]));
        } else if i == n {
            assert(c(w[n0 as int]));
        }
    }
    lemma_zero_weights(ar, c, row, x, n0 as int, n);
    lemma_span_agrees(ar, row, row, x, w, 0, n0 as int);
    assert(c(row[n]) && c(row[n + 1]) && c(w[n0 as int]));
    let head = span_sum(ar, row, w, 0, n0 as int);
    lemma_span_closed(ar, c, row, w, 0, n0 as int);
    closed(ar, c, row[n], w[n0 as int]);
    closed(ar, c, head, ar.times(row[n], w[n0 as int]));
    closed(ar, c, row[n + 1], num(0));
    closed(ar, c, ar.plus(head, ar.times(row[n], w[n0 as int])), num(0));
    assert(span_sum(ar, row, x, 0, n + 1) == ar.plus(
        span_sum(ar, row, x, 0, n),
        ar.times(row[n], x[n]),
    ));
    assert(span_sum(ar, row, x, 0, n + 2) == ar.plus(
        span_sum(ar, row, x, 0, n + 1),
        ar.times(row[n + 1], x[n + 1]),
    ));
}

/// Without cross-correlation, co-kriging is ordinary kriging of the primary: the same
/// value and variance, whatever the secondary values are.
pub proof fn uncorrelated_secondary_changes_nothing<'a, 'b, const D: usize, F: Fn(Op, Double, Double) -> Double, G: Fn([Double; D]) -> Double, H: Fn([Double; D]) -> Double>(
    co: &CoSetting<'a, D, G>,
    s: &Setting<'b, D, H>,
    ar: Arithmetic<F>,
    c: Numbers,
    target: [Double; D],
    nbs: Seq<Seq<usize>>,
    e: KrigingEstimate,
    f: KrigingEstimate,
)
    requires
        stands_alone(co, s, ar),
        nbs.len() == 2,
        computes_in(s, ar, c, nbs[0]),
        nbs[0].len() + nbs[1].len() + 2 <= usize::MAX,
        square_of(c, co.lhs(ar, gathered(nbs, 2))),
        all_numbers(c, co.values_at(gathered(nbs, 2))),
        all_numbers(c, s.rhs(ar, nbs[0], target@, Seq::empty())),
        forall|i: int, d: int|
            0 <= i < nbs[0].len() && 0 <= d < D ==> c(
                #[trigger] s.data.places()[nbs[0][i] as int]@[d],
            ),
        co.cokriged(ar, target, None, false, gathered(nbs, 2), Ok(e)),
        s.kriged(ar, target, Seq::empty(), nbs[0], Ok(f)),
    ensures
        e.value == f.value,
        e.variance == f.variance,
{
    let n0 = nbs[0].len();
    let n1 = nbs[1].len();
    let n = (n0 + n1) as int;
    let dim = n0 + n1 + 2;
    let nb = nbs[0];
    let ms = gathered(nbs, 2);
    assert(ms =~= crate::cokriging::members_of(0, nbs[0]) + crate::cokriging::members_of(
        1,
        nbs[1],
    )) by {
        reveal_with_fuel(gathered, 3);
    }
    let m = co.lhs(ar, ms);
    let b = co.rhs(ar, ms, target@, None);
    let a = s.lhs(ar, nb);
    let g = s.rhs(ar, nb, target@, Seq::empty());
    let w = choose|w: Seq<Double>| #[trigger]
        solution(ar, m, b, w) && e == co.weighted(ar, ms, w, b, None);
    let v = choose|v: Seq<Double>| #[trigger]
        solution(ar, a, g, v) && f == s.weighted(ar, nb, v, g, s.top());
    elimination_satisfies_the_system(ar, c, a, g, v);
    let x = padded(v, n0, n1);
    closed(ar, c, num(0), num(ONE));
    assert forall|r: int| 0 <= r < dim implies b[r] == applied(ar, m, x)[r] by {
        assert(m[r].len() == m.len() && all_numbers(c, m[r]));
        lemma_padded_span(ar, c, m[r], v, n0, n1);
        assert(m[r][n] == co.cell(ar, ms, r, n));
        if r < n0 {
            assert(a[r].len() == a.len() && all_numbers(c, a[r]));
            assert forall|k: int| 0 <= k < n0 implies #[trigger] m[r][k] == a[r][k] by {
                assert(m[r][k] == co.cell(ar, ms, r, k));
                assert(a[r][k] == s.lhs_cell(ar, nb, r, k));
                if r == k {
                    let p = s.data.places()[nb[r] as int]@;
                    assert(ar.separation(p, p) =~= no_separation(D as nat)) by {
                        assert forall|d: int| 0 <= d < D implies ar.separation(p, p)[d]
                            == no_separation(D as nat)[d] by {
                            assert(c(s.data.places()[nb[r] as int]@[d]));
                            crate::exact_kriging::lemma_differences(ar, c, p[d]);
                        }
                    }
                    assert(c(a[r][k]));
                    assert(s.error_at(nb[r] as int) == num(0));
                    let e0 = s.model.entry(ar, no_separation(D as nat));
                    assert(m[r][k] == e0);
                    assert(c(m[r][k]));
                    closed(ar, c, e0, num(0));
                }
            }
            lemma_span_agrees(ar, m[r], a[r], v, v, 0, n0 as int);
            assert(a[r][n0 as int] == s.lhs_cell(ar, nb, r, n0 as int));
            assert(applied(ar, a, v)[r] == g[r]);
            assert(b[r] == g[r]);
        } else if r < n {
            assert forall|k: int| 0 <= k < n0 implies #[trigger] m[r][k] == num(0) by {
                assert(m[r][k] == co.cell(ar, ms, r, k));
            }
            lemma_zero_row(ar, c, m[r], v, n0 as int);
            assert(c(v[n0 as int]));
            closed(ar, c, v[n0 as int], num(0));
            assert(b[r] == num(0));
        } else if r == n {
            let last = a[n0 as int];
            assert(last.len() == a.len() && all_numbers(c, last));
            assert forall|k: int| 0 <= k < n0 implies #[trigger] m[r][k] == last[k] by {
                assert(m[r][k] == co.cell(ar, ms, r, k));
                assert(last[k] == s.lhs_cell(ar, nb, n0 as int, k));
            }
            lemma_span_agrees(ar, m[r], last, v, v, 0, n0 as int);
            assert(last[n0 as int] == s.lhs_cell(ar, nb, n0 as int, n0 as int));
            assert(applied(ar, a, v)[n0 as int] == g[n0 as int]);
        } else {
            assert forall|k: int| 0 <= k < n0 implies #[trigger] m[r][k] == num(0) by {
                assert(m[r][k] == co.cell(ar, ms, r, k));
            }
            lemma_zero_row(ar, c, m[r], v, n0 as int);
            assert(c(v[n0 as int]));
            closed(ar, c, v[n0 as int], num(0));
        }
    }
    assert(b =~= applied(ar, m, x));
    assert(all_numbers(c, x)) by {
        assert(m[0].len() == m.len() && all_numbers(c, m[0]));
        lemma_padded_span(ar, c, m[0], v, n0, n1);
    }
    elimination_finds_the_solution(ar, c, m, b, x, w);
    // The values.
    let vals = co.values_at(ms);
    let own = s.values_at(nb);
    lemma_dot_from_zero(ar, x, vals, n);
    lemma_dot_from_zero(ar, v, own, n0 as int);
    lemma_dot_start(ar, c, v, own, n0 as int);
    lemma_span_commutes(ar, c, x, vals, n);
    lemma_span_commutes(ar, c, v, own, n0 as int);
    lemma_zero_weights(ar, c, vals, x, n0 as int, n);
    lemma_span_agrees(ar, vals, own, x, v, 0, n0 as int);
    // The variances.
    assert forall|i: int| 0 <= i < b.len() implies c(#[trigger] b[i]) by {
        if i < n0 {
            assert(c(g[i]));
            assert(b[i] == g[i]);
        }
    }
    lemma_dot_from_zero(ar, x, b, b.len() as int);
    lemma_dot_from_zero(ar, v, g, g.len() as int);
    lemma_dot_start(ar, c, x, b, b.len() as int);
    lemma_dot_start(ar, c, v, g, g.len() as int);
    lemma_span_commutes(ar, c, x, b, b.len() as int);
    lemma_span_commutes(ar, c, v, g, g.len() as int);
    lemma_padded_span(ar, c, b, v, n0, n1);
    lemma_span_agrees(ar, b, g, v, v, 0, n0 as int);
}

/// The calibration of a soft datum that is not correlated, and what its system is made
/// of is numbers.
pub open spec fn uncorrelated<const D: usize, F: Fn(Op, Double, Double) -> Double, G: Fn([Double; D]) -> Double>(
    ar: Arithmetic<F>,
    c: Numbers,
    model: Covariance<D, G>,
    calib: MarkovBayesCalibration,
    places: Seq<[Double; D]>,
    nb: Seq<usize>,
    target: Seq<Double>,
) -> bool {
    &&& exact(ar, c)
    &&& roots_exact(ar, c)
    &&& nb.len() < usize::MAX
    &&& calib.rho == num(0)
    &&& c(calib.sigma_soft)
    &&& c(calib.mean_soft)
    &&& c(indicator_sigma(ar, model.sill))
    &&& indicator_sigma(ar, model.sill) != num(0)
    &&& square_of(c, soft_matrix(ar, model, calib, places, nb, target))
    &&& all_numbers(c, sk_rhs(ar, model, places, nb, target))
}

/// A soft datum that is not correlated has no influence: the weights with it are those of
/// the hard data and zero, and the estimate at a cutoff is that from the hard data.
pub proof fn uncorrelated_soft_datum_changes_nothing<const D: usize, F: Fn(Op, Double, Double) -> Double, G: Fn([Double; D]) -> Double>(
    ar: Arithmetic<F>,
    c: Numbers,
    model: Covariance<D, G>,
    calib: MarkovBayesCalibration,
    places: Seq<[Double; D]>,
    nb: Seq<usize>,
    target: Seq<Double>,
    w: Seq<Double>,
    v: Seq<Double>,
    values: Seq<Double>,
    cutoff: Double,
    p: Double,
    soft: Double,
)
    requires
        uncorrelated(ar, c, model, calib, places, nb, target),
        sk_weights(ar, model, places, nb, target, Ok(w)),
        solution(
            ar,
            soft_matrix(ar, model, calib, places, nb, target),
            soft_rhs(ar, model, calib, places, nb, target),
            v,
        ),
        values.len() == nb.len(),
        c(p),
        c(soft),
    ensures
        v == w.push(num(0)),
        soft_estimate(ar, v, values, cutoff, p, soft, calib.mean_soft) == ik_estimate(
            ar,
            w,
            values,
            cutoff,
            p,
            false,
        ),
{
    let n = nb.len() as int;
    let m = soft_matrix(ar, model, calib, places, nb, target);
    let a = sk_matrix(ar, model, places, nb);
    let b = soft_rhs(ar, model, calib, places, nb, target);
    let g = sk_rhs(ar, model, places, nb, target);
    let x = w.push(num(0));
    let sigma = indicator_sigma(ar, model.sill);
    assert forall|i: int, j: int| 0 <= i < n && 0 <= j < n implies #[trigger] entry(
        a,
        nb.len(),
        i,
        j,
    ) == sk_cell(ar, model, places, nb, i, j) && c(entry(a, nb.len(), i, j)) by {
        vstd::arithmetic::div_mod::lemma_fundamental_div_mod_converse(i * n + j, n, i, j);
        assert(0 <= i * n + j < n * n) by (nonlinear_arith)
            requires
                0 <= i < n,
                0 <= j < n,
        ;
        assert(m[i].len() == m.len() && all_numbers(c, m[i]));
        assert(m[i][j] == soft_cell(ar, model, calib, places, nb, target, i, j));
        assert(c(m[i][j]));
    }
    assert(symmetric_of(c, a, nb.len())) by {
        assert forall|i: int, j: int| 0 <= i < n && 0 <= j < n implies c(
            #[trigger] entry(a, nb.len(), i, j),
        ) && entry(a, nb.len(), i, j) == entry(a, nb.len(), j, i) by {
            assert(entry(a, nb.len(), j, i) == sk_cell(ar, model, places, nb, j, i));
        }
    }
    factor_satisfies_the_system(ar, c, a, nb.len(), g, w);
    closed(ar, c, num(0), num(ONE));
    closed(ar, c, calib.sigma_soft, sigma);
    closed(ar, c, ar.over(calib.sigma_soft, sigma), num(0));
    closed(ar, c, calib.sigma_soft, num(0));
    closed(ar, c, sigma, num(0));
    assert forall|i: int| 0 <= i < x.len() implies c(#[trigger] x[i]) by {
        if i < n {
            assert(c(w[i]));
        }
    }
    assert forall|r: int| 0 <= r < n implies soft_cross(
        ar,
        model,
        calib,
        #[trigger] ar.separation(places[nb[r] as int]@, target),
    ) == num(0) by {
        assert(c(g[r]));
        closed(ar, c, g[r], num(0));
    }
    assert forall|r: int| 0 <= r <= n implies b[r] == applied(ar, m, x)[r] by {
        let row = m[r];
        assert(row.len() == m.len() && all_numbers(c, row));
        lemma_zero_weights(ar, c, row, x, n, n + 1);
        lemma_span_agrees(ar, row, row, x, w, 0, n);
        if r < n {
            let hard = row_of(a, nb.len(), r);
            assert forall|k: int| 0 <= k < n implies #[trigger] row[k] == hard[k] by {
                assert(row[k] == soft_cell(ar, model, calib, places, nb, target, r, k));
                assert(entry(a, nb.len(), r, k) == sk_cell(ar, model, places, nb, r, k));
            }
            lemma_span_agrees(ar, row, hard, w, w, 0, n);
            assert(g[r] == span_sum(ar, hard, w, 0, n));
        } else {
            assert forall|k: int| 0 <= k < n implies #[trigger] row[k] == num(0) by {
                assert(row[k] == soft_cell(ar, model, calib, places, nb, target, r, k));
                assert(soft_cross(
                    ar,
                    model,
                    calib,
                    ar.separation(places[nb[k] as int]@, target),
                ) == num(0));
            }
            lemma_zero_row(ar, c, row, w, n);
            assert(b[n] == num(0));
        }
    }
    assert(b =~= applied(ar, m, x));
    elimination_finds_the_solution(ar, c, m, b, x, v);
    // The estimates.
    let cf = centered_flags(ar, values, cutoff, p);
    lemma_dot_agrees(ar, p, x, w, cf, n);
    closed(ar, c, soft, calib.mean_soft);
    closed(ar, c, ar.minus(soft, calib.mean_soft), num(0));
    let hard = ik_estimate(ar, w, values, cutoff, p, false);
    lemma_estimate_closed(ar, c, p, w, cf, n, values, cutoff);
    closed(ar, c, hard, num(0));
}

/// Only the weights that are used matter.
pub(crate) proof fn lemma_dot_agrees<F: Fn(Op, Double, Double) -> Double>(
    ar: Arithmetic<F>,
    start: Double,
    a: Seq<Double>,
    b: Seq<Double>,
    v: Seq<Double>,
    n: int,
)
    requires
        forall|i: int| 0 <= i < n ==> #[trigger] a[i] == b[i],
    ensures
        ar.dot_from(start, a, v, n) == ar.dot_from(start, b, v, n),
    decreases n,
{
    if n > 0 {
        lemma_dot_agrees(ar, start, a, b, v, n - 1);
        assert(a[n - 1] == b[n - 1]);
    }
}

proof fn lemma_estimate_closed<F: Fn(Op, Double, Double) -> Double>(
    ar: Arithmetic<F>,
    c: Numbers,
    p: Double,
    w: Seq<Double>,
    cf: Seq<Double>,
    n: int,
    values: Seq<Double>,
    cutoff: Double,
)
    requires
        exact(ar, c),
        c(p),
        all_numbers(c, w),
        0 <= n <= w.len(),
        n <= values.len(),
        cf == centered_flags(ar, values, cutoff, p),
    ensures
        c(ar.dot_from(p, w, cf, n)),
    decreases n,
{
    if n > 0 {
        lemma_estimate_closed(ar, c, p, w, cf, n - 1, values, cutoff);
        closed(ar, c, num(0), num(ONE));
        assert(c(flag(values[n - 1], cutoff)));
        closed(ar, c, flag(values[n - 1], cutoff), p);
        assert(c(w[n - 1]));
        closed(ar, c, w[n - 1], cf[n - 1]);
        closed(ar, c, ar.dot_from(p, w, cf, n - 1), ar.times(w[n - 1], cf[n - 1]));
    }
}

/// Soft data that are not correlated have no influence on the distribution at a target:
/// at every cutoff the estimate is that from the hard data.
pub proof fn uncorrelated_soft_data_change_nothing<'a, const D: usize, F: Fn(Op, Double, Double) -> Double, G: Fn([Double; D]) -> Double>(
    cuts: Cutoffs<'a, D, G>,
    ar: Arithmetic<F>,
    c: Numbers,
    places: Seq<[Double; D]>,
    nb: Seq<usize>,
    values: Seq<Double>,
    target: Seq<Double>,
    soft: Seq<Double>,
    calib: Seq<MarkovBayesCalibration>,
    hard: Seq<Double>,
    raw: Seq<Double>,
)
    requires
        !cuts.ordinary,
        values.len() == nb.len(),
        forall|k: int|
            0 <= k < cuts.values@.len() ==> uncorrelated(
                ar,
                c,
                cuts.model(k),
                #[trigger] calib[k],
                places,
                nb,
                target,
            ) && c(cuts.props@[k]) && c(soft[k]),
        cuts.ccdf_outcome(ar, places, nb, values, target, Ok(hard)),
        cuts.soft_outcome(ar, places, nb, values, target, soft, calib, Ok(raw)),
    ensures
        raw == hard,
{
    let n = cuts.values@.len() as int;
    assert forall|k: int| 0 <= k < n implies raw[k] == hard[k] by {
        assert(cuts.one_from_soft(ar, places, nb, values, target, soft, calib, k, raw[k]));
        let v = choose|v: Seq<Double>| #[trigger]
            cuts.weighs_soft(ar, places, nb, target, calib, k, Ok(v)) && raw[k] == soft_estimate(
                ar,
                v,
                values,
                cuts.values@[k],
                cuts.props@[k],
                soft[k],
                calib[k].mean_soft,
            );
        assert(uncorrelated(ar, c, cuts.model(k), calib[k], places, nb, target));
        let w = if cuts.models@.len() == 1 {
            let r: Result<Seq<Double>, GeostatError> = Ok(hard);
            let w = choose|w: Result<Seq<Double>, GeostatError>| #[trigger]
                cuts.weighs(ar, places, nb, target, 0, w) && match w {
                    Err(e) => r == Err::<Seq<Double>, GeostatError>(e),
                    Ok(w) => r == Ok::<Seq<Double>, GeostatError>(cuts.estimates(ar, w, values)),
                };
            w->Ok_0
        } else {
            assert(cuts.one_from(ar, places, nb, values, target, k, hard[k]));
            choose|w: Seq<Double>| #[trigger]
                cuts.weighs(ar, places, nb, target, k, Ok(w)) && hard[k] == ik_estimate(
                    ar,
                    w,
                    values,
                    cuts.values@[k],
                    cuts.props@[k],
                    cuts.ordinary,
                )
        };
        uncorrelated_soft_datum_changes_nothing(
            ar,
            c,
            cuts.model(k),
            calib[k],
            places,
            nb,
            target,
            w,
            v,
            values,
            cuts.values@[k],
            cuts.props@[k],
            soft[k],
        );
    }
    assert(hard.len() == n);
    assert(raw =~= hard);
}

} // verus!

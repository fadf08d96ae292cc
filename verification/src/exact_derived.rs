//! Lognormal and regression kriging over an arithmetic without rounding: they honor the
//! data, and a constant trend changes nothing.

use vstd::prelude::*;

use crate::algebra::{halves, lemma_minus_undoes, lemma_rows_added, lemma_two_halves};
use crate::arith::{num, Arithmetic, Op, HALF};
use crate::covariance::Covariance;
use crate::data::PointSet;
use crate::double::{Double, ONE};
use crate::error::GeostatError;
use crate::exact::{
    all_numbers, closed, elimination_satisfies_the_system, exact, lemma_dot_start,
    lemma_span_closed, span_sum, Numbers,
};
use crate::exact_collocated::lemma_span_scaled;
use crate::exact_kriging::{
    computes_in, exact_at_the_data, lemma_differences, lemma_dot_is_span, symmetric, term_at,
    weights_reproduce_the_drift,
};
use crate::kriging::{Kriging, KrigingConfig, KrigingEstimate, Setting};
use crate::linalg::{solution, solution_is_unique};
use crate::regression::{less_trend, with_trend};
use crate::trans::{
    all_unlogged, is_unlogged, lognormal_outcome, logs_of, unlogged, unlogged_or_nan,
    LognormalEstimate,
};

verus! {

/// Lognormal kriging is exact at the data: at a data point among the conditioning points
/// it gives the value of that point, where the exponential undoes the logarithm.
pub proof fn lognormal_is_exact_at_the_data<'a, const D: usize, F: Fn(Op, Double, Double) -> Double, G: Fn([Double; D]) -> Double>(
    s: &Setting<'a, D, G>,
    ar: Arithmetic<F>,
    c: Numbers,
    values: Seq<Double>,
    nb: Seq<usize>,
    j: int,
    target: [Double; D],
    e: KrigingEstimate,
    l: LognormalEstimate,
)
    requires
        computes_in(s, ar, c, nb),
        symmetric(ar, *s.model),
        s.config.method is Simple || s.config.method is Ordinary,
        s.measurement_error@.len() == 0,
        s.drift_data@.len() == 0,
        s.data.attributes() == logs_of(ar, values),
        0 <= j < nb.len(),
        nb[j] < values.len(),
        target@ == s.data.places()[nb[j] as int]@,
        all_numbers(c, target@),
        ar.exp(ar.ln(values[nb[j] as int])) == values[nb[j] as int],
        ar.times(num(HALF), num(0)) == num(0),
        s.kriged(ar, target, Seq::empty(), nb, Ok(e)),
        l == unlogged(ar, s.config.method is Simple, e),
    ensures
        l.value == values[nb[j] as int],
        l.log_mean == ar.ln(values[nb[j] as int]),
        l.log_variance == num(0),
{
    exact_at_the_data(s, ar, c, nb, j, target, Seq::empty(), e);
    closed(ar, c, num(0), num(0));
    lemma_differences(ar, c, num(0));
    assert(c(s.values_at(nb)[j]));
    closed(ar, c, e.value, num(0));
}

/// Regression kriging is exact at the data: at a data point among the conditioning points,
/// the trend there and the kriged residual make up the value of that point.
pub proof fn regression_is_exact_at_the_data<'a, const D: usize, F: Fn(Op, Double, Double) -> Double, G: Fn([Double; D]) -> Double>(
    s: &Setting<'a, D, G>,
    ar: Arithmetic<F>,
    c: Numbers,
    values: Seq<Double>,
    trend: Seq<Double>,
    nb: Seq<usize>,
    j: int,
    target: [Double; D],
    e: KrigingEstimate,
)
    requires
        computes_in(s, ar, c, nb),
        symmetric(ar, *s.model),
        s.measurement_error@.len() == 0,
        s.drift_data@.len() == 0,
        s.data.attributes() == less_trend(ar, values, trend),
        0 <= j < nb.len(),
        nb[j] < values.len(),
        c(values[nb[j] as int]),
        c(trend[nb[j] as int]),
        target@ == s.data.places()[nb[j] as int]@,
        all_numbers(c, target@),
        s.kriged(ar, target, Seq::empty(), nb, Ok(e)),
    ensures
        with_trend(ar, trend[nb[j] as int], e).value == values[nb[j] as int],
        with_trend(ar, trend[nb[j] as int], e).variance == num(0),
{
    exact_at_the_data(s, ar, c, nb, j, target, Seq::empty(), e);
    let (v, m) = (values[nb[j] as int], trend[nb[j] as int]);
    closed(ar, c, v, m);
    closed(ar, c, m, ar.minus(v, m));
}

/// What a sum of rows makes is the sum of what they make.
proof fn lemma_span_added<F: Fn(Op, Double, Double) -> Double>(
    ar: Arithmetic<F>,
    c: Numbers,
    a: Seq<Double>,
    b: Seq<Double>,
    sum: Seq<Double>,
    x: Seq<Double>,
    hi: int,
)
    requires
        exact(ar, c),
        all_numbers(c, a),
        all_numbers(c, b),
        all_numbers(c, x),
        0 <= hi <= a.len(),
        hi <= b.len(),
        hi <= x.len(),
        forall|i: int| 0 <= i < hi ==> #[trigger] sum[i] == ar.plus(a[i], b[i]),
    ensures
        span_sum(ar, sum, x, 0, hi) == ar.plus(
            span_sum(ar, a, x, 0, hi),
            span_sum(ar, b, x, 0, hi),
        ),
{
    lemma_rows_added(ar, c, a, b, sum, x, hi);
}

/// `rest` krigs the residuals of a constant trend, `whole` the values, both ordinarily,
/// with the same model and configuration.
pub open spec fn differ_by<'a, 'b, const D: usize, F: Fn(Op, Double, Double) -> Double, G: Fn([Double; D]) -> Double>(
    rest: &Setting<'a, D, G>,
    whole: &Setting<'b, D, G>,
    ar: Arithmetic<F>,
    level: Double,
) -> bool {
    &&& rest.data.places() == whole.data.places()
    &&& rest.data.attributes() == less_trend(
        ar,
        whole.data.attributes(),
        Seq::new(whole.data.attributes().len(), |i: int| level),
    )
    &&& *rest.model == *whole.model
    &&& rest.config == whole.config
    &&& rest.config.method is Ordinary
    &&& rest.measurement_error@ == whole.measurement_error@
}

/// Regression kriging with a constant trend is ordinary kriging: the same value, variance
/// and multiplier from the same conditioning points.
pub proof fn constant_trend_leaves_ordinary_kriging<'a, 'b, const D: usize, F: Fn(Op, Double, Double) -> Double, G: Fn([Double; D]) -> Double>(
    rest: &Setting<'a, D, G>,
    whole: &Setting<'b, D, G>,
    ar: Arithmetic<F>,
    c: Numbers,
    level: Double,
    nb: Seq<usize>,
    target: [Double; D],
    e: KrigingEstimate,
    f: KrigingEstimate,
)
    requires
        differ_by(rest, whole, ar, level),
        c(level),
        computes_in(whole, ar, c, nb),
        all_numbers(c, whole.rhs(ar, nb, target@, Seq::empty())),
        forall|i: int| 0 <= i < nb.len() ==> (#[trigger] nb[i]) < whole.data.attributes().len(),
        rest.kriged(ar, target, Seq::empty(), nb, Ok(e)),
        whole.kriged(ar, target, Seq::empty(), nb, Ok(f)),
    ensures
        with_trend(ar, level, e) == f,
{
    let n = nb.len() as int;
    let m = whole.lhs(ar, nb);
    let b = whole.rhs(ar, nb, target@, Seq::empty());
    let dim = nb.len() + 1;
    assert forall|r: int| 0 <= r < dim implies rest.lhs(ar, nb)[r] == m[r] by {
        assert forall|k: int| 0 <= k < dim implies rest.lhs_cell(ar, nb, r, k)
            == whole.lhs_cell(ar, nb, r, k) by {}
        assert(rest.lhs(ar, nb)[r] =~= m[r]);
    }
    assert(rest.lhs(ar, nb) =~= m);
    assert(rest.rhs(ar, nb, target@, Seq::empty()) =~= b);
    let w = choose|w: Seq<Double>| #[trigger]
        solution(ar, rest.lhs(ar, nb), b, w) && e == rest.weighted(ar, nb, w, b, rest.top());
    let v = choose|v: Seq<Double>| #[trigger]
        solution(ar, m, b, v) && f == whole.weighted(ar, nb, v, b, whole.top());
    solution_is_unique(ar, m, b, w, v);
    elimination_satisfies_the_system(ar, c, m, b, w);
    weights_reproduce_the_drift(whole, ar, c, nb, target@, Seq::empty(), w, 0);
    let ones = term_at(whole, ar, nb, 0);
    let vals = whole.values_at(nb);
    let resid = rest.values_at(nb);
    let shift = Seq::new(nb.len(), |i: int| ar.times(level, num(ONE)));
    closed(ar, c, level, num(ONE));
    closed(ar, c, num(0), num(ONE));
    assert forall|i: int| 0 <= i < n implies c(#[trigger] resid[i]) && vals[i] == ar.plus(
        resid[i],
        shift[i],
    ) by {
        assert(c(vals[i]));
        closed(ar, c, vals[i], level);
    }
    assert(all_numbers(c, ones)) by {
        assert forall|i: int| 0 <= i < ones.len() implies c(#[trigger] ones[i]) by {
            assert(term_at(whole, ar, nb, 0)[i] == num(ONE));
        }
    }
    lemma_span_scaled(ar, c, level, ones, shift, w, n);
    lemma_span_added(ar, c, resid, shift, vals, w, n);
    // The weighted residuals and the trend make up the weighted values.
    lemma_dot_start(ar, c, w, vals, n);
    lemma_dot_start(ar, c, w, resid, n);
    lemma_dot_is_span(ar, c, num(0), w, vals, n);
    lemma_dot_is_span(ar, c, num(0), w, resid, n);
    lemma_span_closed(ar, c, vals, w, 0, n);
    lemma_span_closed(ar, c, resid, w, 0, n);
    closed(ar, c, span_sum(ar, vals, w, 0, n), num(0));
    closed(ar, c, span_sum(ar, resid, w, 0, n), level);
    assert(whole.basis(ar, target@, Seq::empty())[0] == num(ONE));
}

/// The logarithm undoes the exponential function on these numbers.
pub open spec fn undoes_exp<F: Fn(Op, Double, Double) -> Double>(ar: Arithmetic<F>, c: Numbers) -> bool {
    forall|x: Double| c(x) ==> ar.ln(#[trigger] ar.exp(x)) == x
}

/// The estimate of lognormal kriging at a target is the mean of a lognormal variable, of
/// which it reports the mean and the variance of the logarithm. For simple kriging, the
/// logarithm of the estimate exceeds the reported mean by half of the reported variance.
/// For ordinary kriging it does so once the multiplier of the constraint, which the
/// logarithms are kriged with, is added to it. Mean and variance of the logarithm are those
/// that kriging of the logarithms gives.
pub proof fn lognormal_estimate_is_a_mean<const D: usize, F: Fn(Op, Double, Double) -> Double, G: Fn([Double; D]) -> Double>(
    ar: Arithmetic<F>,
    c: Numbers,
    data: &PointSet<D>,
    targets: Seq<[Double; D]>,
    model: &Covariance<D, G>,
    config: KrigingConfig,
    out: Vec<LognormalEstimate>,
    t: int,
)
    requires
        exact(ar, c),
        halves(ar, c),
        undoes_exp(ar, c),
        lognormal_outcome(ar, data, targets, model, config, Ok(out)),
        0 <= t < targets.len(),
        c(out@[t].log_mean),
        c(out@[t].log_variance),
        !out@[t].log_mean.nan(),
        config.method is Ordinary ==> forall|k: Kriging<D, G>, e: KrigingEstimate|
            #![trigger k.answers(ar, targets[t], Ok(e))]
            k.answers(ar, targets[t], Ok(e)) ==> c(e.lagrange->0),
    ensures
        out@.len() == targets.len(),
        config.method is Simple ==> ({
            let gain = ar.minus(ar.ln(out@[t].value), out@[t].log_mean);
            ar.plus(gain, gain) == out@[t].log_variance
        }),
        exists|k: Kriging<D, G>, e: KrigingEstimate|
            {
                &&& k.setting().model == model
                &&& k.setting().config == config
                &&& k.setting().data.places() == data.places()
                &&& forall|i: int|
                    0 <= i < data.attributes().len() ==> k.setting().data.attributes()[i] == ar.ln(
                        #[trigger] data.attributes()[i],
                    )
                &&& #[trigger] k.answers(ar, targets[t], Ok(e))
                &&& out@[t].log_mean == e.value
                &&& out@[t].log_variance == e.variance
                &&& config.method is Ordinary ==> {
                    let gain = ar.plus(
                        ar.minus(ar.ln(out@[t].value), out@[t].log_mean),
                        e.lagrange->0,
                    );
                    ar.plus(gain, gain) == out@[t].log_variance
                }
            },
{
    let logs = logs_of(ar, data.attributes());
    let (log_data, k) = choose|log_data: PointSet<D>, k: Kriging<D, G>|
        log_data.places() == data.places() && log_data.attributes() == logs && #[trigger] k.built(
            ar,
            &log_data,
            model,
            config,
            Seq::empty(),
            Seq::empty(),
        ) && all_unlogged(ar, k, config.method is Simple, targets, out@);
    let l = out@[t];
    assert(is_unlogged(ar, k, config.method is Simple, targets[t], l));
    let r = choose|r: Result<KrigingEstimate, GeostatError>| #[trigger]
        k.answers(ar, targets[t], r) && l == unlogged_or_nan(ar, config.method is Simple, r);
    assert(r is Ok);
    let e = r->Ok_0;
    assert(k.answers(ar, targets[t], Ok(e)));
    let half = ar.times(num(HALF), e.variance);
    lemma_two_halves(ar, c, e.variance);
    closed(ar, c, e.value, half);
    lemma_minus_undoes(ar, c, half, e.value);
    if config.method is Simple {
        assert(ar.ln(ar.exp(ar.plus(e.value, half))) == ar.plus(e.value, half));
    } else {
        let s = k.setting();
        let nb = choose|nb: Seq<usize>| #[trigger]
            s.is_neighborhood(ar, targets[t], nb) && s.kriged(ar, targets[t], Seq::empty(), nb, r);
        assert(e.lagrange is Some);
        let mu = e.lagrange->0;
        closed(ar, c, half, mu);
        let rest = ar.minus(half, mu);
        closed(ar, c, e.value, rest);
        lemma_minus_undoes(ar, c, rest, e.value);
        assert(ar.ln(ar.exp(ar.plus(e.value, rest))) == ar.plus(e.value, rest));
    }
}

/// The estimate of simple lognormal kriging is greater than the exponential of the
/// reported mean wherever the reported variance is positive, for an arithmetic that keeps
/// order.
pub proof fn simple_lognormal_estimate_exceeds_the_median<const D: usize, F: Fn(Op, Double, Double) -> Double, G: Fn([Double; D]) -> Double>(
    ar: Arithmetic<F>,
    c: Numbers,
    data: &PointSet<D>,
    targets: Seq<[Double; D]>,
    model: &Covariance<D, G>,
    config: KrigingConfig,
    out: Vec<LognormalEstimate>,
    t: int,
)
    requires
        forall|x: Double, y: Double|
            #![trigger ar.exp(x), ar.exp(y)]
            c(x) && c(y) && x.below(y) ==> ar.exp(x).below(ar.exp(y)),
        forall|x: Double, v: Double|
            #![trigger ar.plus(x, ar.times(num(HALF), v))]
            c(x) && v.positive() && c(ar.plus(x, ar.times(num(HALF), v))) ==> x.below(
                ar.plus(x, ar.times(num(HALF), v)),
            ),
        c(out@[t].log_mean),
        c(ar.plus(out@[t].log_mean, ar.times(num(HALF), out@[t].log_variance))),
        config.method is Simple,
        lognormal_outcome(ar, data, targets, model, config, Ok(out)),
        0 <= t < targets.len(),
        out@[t].log_mean.finite(),
        out@[t].log_variance.positive(),
    ensures
        ar.exp(out@[t].log_mean).below(out@[t].value),
{
    let logs = logs_of(ar, data.attributes());
    let (log_data, k) = choose|log_data: PointSet<D>, k: Kriging<D, G>|
        log_data.places() == data.places() && log_data.attributes() == logs && #[trigger] k.built(
            ar,
            &log_data,
            model,
            config,
            Seq::empty(),
            Seq::empty(),
        ) && all_unlogged(ar, k, config.method is Simple, targets, out@);
    let l = out@[t];
    assert(is_unlogged(ar, k, config.method is Simple, targets[t], l));
    let r = choose|r: Result<KrigingEstimate, GeostatError>| #[trigger]
        k.answers(ar, targets[t], r) && l == unlogged_or_nan(ar, config.method is Simple, r);
    assert(r is Ok);
    let e = r->Ok_0;
    let above = ar.plus(e.value, ar.times(num(HALF), e.variance));
    assert(e.value.below(above));
    assert(ar.exp(e.value).below(ar.exp(above)));
}

} // verus!

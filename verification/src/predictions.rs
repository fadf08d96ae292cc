//! Predictions from all data, over an arithmetic without rounding: what kriging,
//! co-kriging, lognormal and regression kriging promise, stated of what their predictors
//! give back.

use vstd::prelude::*;

use crate::arith::{num, Arithmetic, Op, HALF};
use crate::cokriging::{gathered, members_of, CoSetting, Member};
use crate::collocated::Pairing;
use crate::covariance::{no_separation, Covariance};
use crate::data::PointSet;
use crate::double::{Double, ONE};
use crate::error::GeostatError;
use crate::exact::{all_numbers, closed, exact, Numbers};
use crate::exact_cokriging::{
    block_cokriging_is_the_mean_of_its_points, cokriges_in, cokriging_is_exact_at_the_data,
    exchanges,
};
use crate::exact_collocated::{
    collocated_is_exact_at_the_data, collocates_in, leaves_simple,
    uncorrelated_secondary_leaves_simple_kriging,
};
use crate::exact_derived::{
    constant_trend_leaves_ordinary_kriging, lognormal_is_exact_at_the_data,
    regression_is_exact_at_the_data,
};
use crate::exact_kriging::{
    block_is_the_mean_of_its_points, computes_in, counts, exact_at_the_data, symmetric,
    values_of_estimates,
};
use crate::kriging::{or_nan, Kriging, KrigingConfig, KrigingEstimate, KrigingMethod, Setting};
use crate::neighborhood::all_below;
use crate::regression::{less_trend, trended, with_trend, RegressionKriging};
use crate::trans::{
    all_unlogged, is_unlogged, lognormal_outcome, logs_of, unlogged_or_nan, LognormalEstimate,
};
use crate::uncorrelated::{stands_alone, uncorrelated_secondary_changes_nothing};

verus! {

/// The targets are the points of a block, laid out around its center.
pub open spec fn around<const D: usize, F: Fn(Op, Double, Double) -> Double>(
    ar: Arithmetic<F>,
    center: [Double; D],
    offsets: Seq<[Double; D]>,
    targets: Seq<[Double; D]>,
) -> bool {
    &&& targets.len() == offsets.len()
    &&& forall|u: int, d: int|
        0 <= u < offsets.len() && 0 <= d < D ==> (#[trigger] targets[u]@[d]) == ar.plus(
            center@[d],
            offsets[u]@[d],
        )
}

/// Without limits, all data points are conditioning points.
proof fn lemma_everyone<'a, const D: usize, F: Fn(Op, Double, Double) -> Double, G: Fn([Double; D]) -> Double>(
    s: &Setting<'a, D, G>,
    ar: Arithmetic<F>,
    target: [Double; D],
    nb: Seq<usize>,
)
    requires
        s.config.global(),
        s.is_neighborhood(ar, target, nb),
    ensures
        nb == all_below(s.data.places().len()),
{
    assert(nb =~= all_below(s.data.places().len()));
}

/// Prediction from all data is exact at the data: at data point `i`, without measurement
/// error, it gives the value of that point, with no variance.
pub proof fn prediction_is_exact_at_the_data<'a, const D: usize, F: Fn(Op, Double, Double) -> Double, G: Fn([Double; D]) -> Double>(
    s: &Setting<'a, D, G>,
    ar: Arithmetic<F>,
    c: Numbers,
    i: usize,
    target: [Double; D],
    e: KrigingEstimate,
)
    requires
        s.config.global(),
        s.measurement_error@.len() == 0,
        s.drift_data@.len() == 0,
        symmetric(ar, *s.model),
        computes_in(s, ar, c, all_below(s.data.places().len())),
        i < s.data.places().len() <= usize::MAX,
        target@ == s.data.places()[i as int]@,
        all_numbers(c, target@),
        s.predicted(ar, target, Seq::empty(), Ok(e)),
    ensures
        e.value == s.data.attributes()[i as int],
        e.variance == num(0),
{
    let nb = choose|nb: Seq<usize>| #[trigger]
        s.is_neighborhood(ar, target, nb) && s.kriged(ar, target, Seq::empty(), nb, Ok(e));
    lemma_everyone(s, ar, target, nb);
    assert(nb[i as int] == i);
    exact_at_the_data(s, ar, c, nb, i as int, target, Seq::empty(), e);
}

/// Block prediction from all data averages point predictions.
pub proof fn block_prediction_is_the_mean<'a, const D: usize, F: Fn(Op, Double, Double) -> Double, G: Fn([Double; D]) -> Double>(
    s: &Setting<'a, D, G>,
    ar: Arithmetic<F>,
    c: Numbers,
    center: [Double; D],
    offsets: Seq<[Double; D]>,
    targets: Seq<[Double; D]>,
    es: Seq<KrigingEstimate>,
    e: KrigingEstimate,
)
    requires
        s.config.global(),
        computes_in(s, ar, c, all_below(s.data.places().len())),
        counts(ar, c, offsets.len()),
        s.model.semivariance(no_separation(D as nat)) == num(0),
        around(ar, center, offsets, targets),
        es.len() == offsets.len(),
        forall|u: int|
            0 <= u < offsets.len() ==> all_numbers(
                c,
                #[trigger] s.rhs(
                    ar,
                    all_below(s.data.places().len()),
                    targets[u]@,
                    Seq::empty(),
                ),
            ),
        forall|u: int|
            0 <= u < offsets.len() ==> s.predicted(
                ar,
                targets[u],
                Seq::empty(),
                Ok(#[trigger] es[u]),
            ),
        s.block_predicted(ar, center, offsets, Ok(e)),
    ensures
        e.value == ar.average_of(values_of_estimates(es)),
{
    let all = all_below(s.data.places().len());
    let nb = choose|nb: Seq<usize>| #[trigger]
        s.is_neighborhood(ar, center, nb) && s.block_kriged(ar, center, offsets, nb, Ok(e));
    lemma_everyone(s, ar, center, nb);
    assert forall|u: int| 0 <= u < offsets.len() implies s.kriged(
        ar,
        targets[u],
        Seq::empty(),
        all,
        Ok(#[trigger] es[u]),
    ) by {
        assert(s.predicted(ar, targets[u], Seq::empty(), Ok(es[u])));
        let near = choose|near: Seq<usize>| #[trigger]
            s.is_neighborhood(ar, targets[u], near) && s.kriged(
                ar,
                targets[u],
                Seq::empty(),
                near,
                Ok(es[u]),
            );
        lemma_everyone(s, ar, targets[u], near);
    }
    block_is_the_mean_of_its_points(s, ar, c, all, center, offsets, targets, es, e);
}

/// All points of all variables, by variable.
pub open spec fn everyone<'a, const D: usize, G>(co: &CoSetting<'a, D, G>) -> Seq<Seq<usize>> {
    Seq::new(co.datasets@.len(), |v: int| all_below(co.datasets@[v].places().len()))
}

/// All points of all variables, variable by variable.
pub open spec fn all_members<'a, const D: usize, G>(co: &CoSetting<'a, D, G>) -> Seq<Member> {
    gathered(everyone(co), co.datasets@.len())
}

proof fn lemma_all_members<'a, const D: usize, F: Fn(Op, Double, Double) -> Double, G: Fn([Double; D]) -> Double>(
    co: &CoSetting<'a, D, G>,
    ar: Arithmetic<F>,
    target: [Double; D],
    nbs: Seq<Seq<usize>>,
)
    requires
        co.config.max_neighbors is None,
        co.config.search_radius is None,
        co.neighborhoods(ar, target, nbs),
    ensures
        nbs == everyone(co),
{
    assert forall|v: int| 0 <= v < nbs.len() implies nbs[v] == everyone(co)[v] by {
        assert(nbs[v] == all_below(co.datasets@[v].places().len()));
    }
    assert(nbs =~= everyone(co));
}

/// The points of the first variable come first.
proof fn lemma_gathered_first(nbs: Seq<Seq<usize>>, n: nat, i: int)
    requires
        0 < n <= nbs.len(),
        0 <= i < nbs[0].len(),
    ensures
        i < gathered(nbs, n).len(),
        gathered(nbs, n)[i] == (0usize, nbs[0][i]),
    decreases n,
{
    if n == 1 {
        assert(gathered(nbs, 0) =~= Seq::empty());
        assert(gathered(nbs, 1) =~= members_of(0, nbs[0]));
    } else {
        lemma_gathered_first(nbs, (n - 1) as nat, i);
    }
}

/// Co-kriging prediction from all data is exact at the primary data.
pub proof fn coprediction_is_exact_at_the_data<'a, const D: usize, F: Fn(Op, Double, Double) -> Double, G: Fn([Double; D]) -> Double>(
    co: &CoSetting<'a, D, G>,
    ar: Arithmetic<F>,
    c: Numbers,
    i: usize,
    target: [Double; D],
    e: KrigingEstimate,
)
    requires
        co.config.max_neighbors is None,
        co.config.search_radius is None,
        !co.config.ridge.is_positive(),
        cokriges_in(co, ar, c, all_members(co)),
        exchanges(co, ar),
        i < co.datasets@[0].places().len() <= usize::MAX,
        target@ == co.datasets@[0].places()[i as int]@,
        all_numbers(c, target@),
        co.predicted(ar, target, None, Ok(e)),
    ensures
        e.value == co.datasets@[0].attributes()[i as int],
        e.variance == num(0),
{
    let nbs = choose|nbs: Seq<Seq<usize>>| #[trigger]
        co.neighborhoods(ar, target, nbs) && co.cokriged(
            ar,
            target,
            None,
            nbs[0].len() == 0,
            gathered(nbs, nbs.len()),
            Ok(e),
        );
    lemma_all_members(co, ar, target, nbs);
    lemma_gathered_first(nbs, nbs.len(), i as int);
    assert(nbs[0][i as int] == i);
    cokriging_is_exact_at_the_data(co, ar, c, all_members(co), i as int, target, e);
}

/// Block co-kriging prediction from all data averages point predictions.
pub proof fn block_coprediction_is_the_mean<'a, const D: usize, F: Fn(Op, Double, Double) -> Double, G: Fn([Double; D]) -> Double>(
    co: &CoSetting<'a, D, G>,
    ar: Arithmetic<F>,
    c: Numbers,
    center: [Double; D],
    offsets: Seq<[Double; D]>,
    targets: Seq<[Double; D]>,
    es: Seq<KrigingEstimate>,
    e: KrigingEstimate,
)
    requires
        co.config.max_neighbors is None,
        co.config.search_radius is None,
        cokriges_in(co, ar, c, all_members(co)),
        counts(ar, c, offsets.len()),
        around(ar, center, offsets, targets),
        forall|u: int|
            0 <= u < offsets.len() ==> all_numbers(
                c,
                #[trigger] co.rhs(ar, all_members(co), targets[u]@, None),
            ),
        es.len() == offsets.len(),
        forall|u: int|
            0 <= u < offsets.len() ==> co.predicted(ar, targets[u], None, Ok(#[trigger] es[u])),
        co.block_predicted(ar, center, offsets, Ok(e)),
    ensures
        e.value == ar.average_of(values_of_estimates(es)),
{
    let ms = all_members(co);
    let nbs = choose|nbs: Seq<Seq<usize>>| #[trigger]
        co.neighborhoods(ar, center, nbs) && co.cokriged(
            ar,
            center,
            Some(offsets),
            nbs[0].len() == 0,
            gathered(nbs, nbs.len()),
            Ok(e),
        );
    lemma_all_members(co, ar, center, nbs);
    assert forall|u: int| 0 <= u < offsets.len() implies co.cokriged(
        ar,
        targets[u],
        None,
        false,
        ms,
        Ok(#[trigger] es[u]),
    ) by {
        assert(co.predicted(ar, targets[u], None, Ok(es[u])));
        let near = choose|near: Seq<Seq<usize>>| #[trigger]
            co.neighborhoods(ar, targets[u], near) && co.cokriged(
                ar,
                targets[u],
                None,
                near[0].len() == 0,
                gathered(near, near.len()),
                Ok(es[u]),
            );
        lemma_all_members(co, ar, targets[u], near);
    }
    block_cokriging_is_the_mean_of_its_points(co, ar, c, ms, center, offsets, targets, es, e);
}

/// Without cross-correlation, co-kriging prediction from all data is ordinary kriging
/// prediction: the same value and variance, whatever the secondary values are.
pub proof fn uncorrelated_coprediction_is_ordinary<'a, 'b, const D: usize, F: Fn(Op, Double, Double) -> Double, G: Fn([Double; D]) -> Double, H: Fn([Double; D]) -> Double>(
    co: &CoSetting<'a, D, G>,
    s: &Setting<'b, D, H>,
    ar: Arithmetic<F>,
    c: Numbers,
    target: [Double; D],
    e: KrigingEstimate,
    f: KrigingEstimate,
)
    requires
        stands_alone(co, s, ar),
        co.config.max_neighbors is None,
        co.config.search_radius is None,
        s.config.global(),
        computes_in(s, ar, c, all_below(s.data.places().len())),
        cokriges_in(co, ar, c, all_members(co)),
        everyone(co)[0].len() + everyone(co)[1].len() + 2 <= usize::MAX,
        all_numbers(c, s.rhs(ar, all_below(s.data.places().len()), target@, Seq::empty())),
        forall|i: int, d: int|
            0 <= i < s.data.places().len() && 0 <= d < D ==> c(#[trigger] s.data.places()[i]@[d]),
        co.predicted(ar, target, None, Ok(e)),
        s.predicted(ar, target, Seq::empty(), Ok(f)),
    ensures
        e.value == f.value,
        e.variance == f.variance,
{
    let nbs = choose|nbs: Seq<Seq<usize>>| #[trigger]
        co.neighborhoods(ar, target, nbs) && co.cokriged(
            ar,
            target,
            None,
            nbs[0].len() == 0,
            gathered(nbs, nbs.len()),
            Ok(e),
        );
    let nb = choose|nb: Seq<usize>| #[trigger]
        s.is_neighborhood(ar, target, nb) && s.kriged(ar, target, Seq::empty(), nb, Ok(f));
    lemma_all_members(co, ar, target, nbs);
    lemma_everyone(s, ar, target, nb);
    assert(nbs[0] == nb);
    assert forall|i: int, d: int| 0 <= i < nbs[0].len() && 0 <= d < D implies c(
        #[trigger] s.data.places()[nbs[0][i] as int]@[d],
    ) by {
        assert(nbs[0][i] as int == i as usize as int);
        assert(0 <= nbs[0][i] as int);
        assert(c(s.data.places()[i]@[d]));
    }
    uncorrelated_secondary_changes_nothing(co, s, ar, c, target, nbs, e, f);
}

/// Collocated prediction from all primary data is exact at them, whatever the secondary
/// value is.
pub proof fn collocated_prediction_is_exact_at_the_data<'a, const D: usize, F: Fn(Op, Double, Double) -> Double, G: Fn([Double; D]) -> Double>(
    pair: &Pairing<'a, D, G>,
    ar: Arithmetic<F>,
    c: Numbers,
    i: usize,
    target: [Double; D],
    secondary: Double,
    e: KrigingEstimate,
)
    requires
        pair.config.max_neighbors is None,
        pair.config.search_radius is None,
        collocates_in(
            pair,
            ar,
            c,
            all_below(pair.primary.places().len()),
            target@,
            secondary,
        ),
        forall|p: Seq<Double>, q: Seq<Double>|
            #![trigger pair.model1.covariance(ar, ar.separation(p, q))]
            p.len() == D && q.len() == D ==> pair.model1.covariance(ar, ar.separation(p, q))
                == pair.model1.covariance(ar, ar.separation(q, p)),
        i < pair.primary.places().len(),
        target@ == pair.primary.places()[i as int]@,
        all_numbers(c, target@),
        c(pair.primary.attributes()[i as int]),
        pair.predicted(ar, target, secondary, Ok(e)),
    ensures
        e.value == pair.primary.attributes()[i as int],
        e.variance == num(0),
{
    let nb = all_below(pair.primary.places().len());
    assert(nb[i as int] == i);
    collocated_is_exact_at_the_data(pair, ar, c, nb, i as int, target, secondary, e);
}

/// Without correlation, collocated prediction from all primary data is simple kriging
/// prediction of them.
pub proof fn uncorrelated_collocated_prediction_is_simple<'a, 'b, const D: usize, F: Fn(Op, Double, Double) -> Double, G: Fn([Double; D]) -> Double, H: Fn([Double; D]) -> Double>(
    pair: &Pairing<'a, D, G>,
    s: &Setting<'b, D, H>,
    ar: Arithmetic<F>,
    c: Numbers,
    target: [Double; D],
    secondary: Double,
    e: KrigingEstimate,
    f: KrigingEstimate,
)
    requires
        leaves_simple(pair, s, ar),
        pair.config.max_neighbors is None,
        pair.config.search_radius is None,
        s.config.global(),
        collocates_in(pair, ar, c, all_below(s.data.places().len()), target@, secondary),
        computes_in(s, ar, c, all_below(s.data.places().len())),
        all_numbers(c, s.rhs(ar, all_below(s.data.places().len()), target@, Seq::empty())),
        forall|i: int|
            0 <= i < s.data.places().len() ==> c(
                pair.shape(ar, ar.separation((#[trigger] pair.primary.places()[i])@, target@)),
            ),
        pair.predicted(ar, target, secondary, Ok(e)),
        s.predicted(ar, target, Seq::empty(), Ok(f)),
    ensures
        e.value == f.value,
        ar.times(pair.stats.sigma1, pair.stats.sigma1) == s.model.sill ==> e.variance == f.variance,
{
    let nb = choose|nb: Seq<usize>| #[trigger]
        s.is_neighborhood(ar, target, nb) && s.kriged(ar, target, Seq::empty(), nb, Ok(f));
    lemma_everyone(s, ar, target, nb);
    assert forall|i: int| 0 <= i < nb.len() implies c(
        pair.shape(
            ar,
            ar.separation((#[trigger] pair.primary.places()[nb[i] as int])@, target@),
        ),
    ) by {
        assert(nb[i] == i);
        assert(c(pair.shape(ar, ar.separation(pair.primary.places()[i]@, target@))));
    }
    uncorrelated_secondary_leaves_simple_kriging(
        pair,
        s,
        ar,
        c,
        nb,
        target,
        secondary,
        e,
        f,
    );
}

/// What a model, values and a simple or ordinary configuration are made of is numbers.
pub open spec fn krigs_in<const D: usize, F: Fn(Op, Double, Double) -> Double, G: Fn([Double; D]) -> Double>(
    ar: Arithmetic<F>,
    c: Numbers,
    model: Covariance<D, G>,
    config: KrigingConfig,
    values: Seq<Double>,
) -> bool {
    &&& exact(ar, c)
    &&& c(model.sill)
    &&& forall|h: Seq<Double>| c(#[trigger] model.semivariance(h))
    &&& all_numbers(c, values)
    &&& values.len() < usize::MAX
    &&& match config.method {
        KrigingMethod::Simple { mean } => c(mean),
        KrigingMethod::Ordinary => true,
        _ => false,
    }
}

proof fn lemma_computes<'a, const D: usize, F: Fn(Op, Double, Double) -> Double, G: Fn([Double; D]) -> Double>(
    s: &Setting<'a, D, G>,
    ar: Arithmetic<F>,
    c: Numbers,
)
    requires
        krigs_in(ar, c, *s.model, s.config, s.data.attributes()),
        s.measurement_error@.len() == 0,
        s.data.places().len() == s.data.attributes().len(),
    ensures
        computes_in(s, ar, c, all_below(s.data.places().len())),
{
    let n = s.data.places().len();
    let nb = all_below(n);
    let m = s.lhs(ar, nb);
    closed(ar, c, num(0), num(ONE));
    assert forall|h: Seq<Double>| c(#[trigger] s.model.entry(ar, h)) by {
        assert(c(s.model.semivariance(h)));
        closed(ar, c, s.model.sill, s.model.semivariance(h));
    }
    assert forall|r: int| 0 <= r < m.len() implies (#[trigger] m[r]).len() == m.len()
        && all_numbers(c, m[r]) by {
        assert forall|k: int| 0 <= k < m[r].len() implies c(#[trigger] m[r][k]) by {
            assert(m[r][k] == s.lhs_cell(ar, nb, r, k));
            if r < n && k < n {
                if r == k {
                    assert(s.error_at(nb[r] as int) == num(0));
                    closed(ar, c, s.model.entry(ar, no_separation(D as nat)), num(0));
                } else {
                    assert(c(s.model.entry(ar, s.gap(ar, nb, r, k))));
                }
            }
        }
    }
    assert forall|i: int| 0 <= i < n implies c(#[trigger] s.values_at(nb)[i]) by {
        assert(nb[i] == i);
        assert(c(s.data.attributes()[i]));
    }
}

/// Lognormal kriging from all data is exact at them: where the system at the target can be
/// solved, the estimate at data point `i` is its value.
pub proof fn lognormal_prediction_is_exact_at_the_data<const D: usize, F: Fn(Op, Double, Double) -> Double, G: Fn([Double; D]) -> Double>(
    ar: Arithmetic<F>,
    c: Numbers,
    data: &PointSet<D>,
    targets: Seq<[Double; D]>,
    model: &Covariance<D, G>,
    config: KrigingConfig,
    out: Vec<LognormalEstimate>,
    t: int,
    i: usize,
)
    requires
        data.well_formed(),
        config.global(),
        krigs_in(ar, c, *model, config, logs_of(ar, data.attributes())),
        symmetric(ar, *model),
        lognormal_outcome(ar, data, targets, model, config, Ok(out)),
        0 <= t < targets.len(),
        i < data.places().len(),
        targets[t]@ == data.places()[i as int]@,
        all_numbers(c, targets[t]@),
        ar.exp(ar.ln(data.attributes()[i as int])) == data.attributes()[i as int],
        ar.times(num(HALF), num(0)) == num(0),
        !out@[t].log_mean.nan(),
    ensures
        out@[t].value == data.attributes()[i as int],
        out@[t].log_variance == num(0),
{
    let logs = logs_of(ar, data.attributes());
    let (log_data, k) = choose|log_data: PointSet<D>, k: Kriging<D, G>|
        log_data.places() == data.places() && log_data.attributes() == logs && #[trigger] k.built(
            ar,
            &log_data,
            model,
            config,
            Seq::empty(),
            Seq::empty(),
        ) && all_unlogged(ar, k, config.method is Simple, targets, out@);
    let s = k.setting();
    let l = out@[t];
    assert(is_unlogged(ar, k, config.method is Simple, targets[t], l));
    let r = choose|r: Result<KrigingEstimate, GeostatError>| #[trigger]
        k.answers(ar, targets[t], r) && l == unlogged_or_nan(ar, config.method is Simple, r);
    let e = r->Ok_0;
    assert(r is Ok);
    let nb = choose|nb: Seq<usize>| #[trigger]
        s.is_neighborhood(ar, targets[t], nb) && s.kriged(ar, targets[t], Seq::empty(), nb, r);
    lemma_everyone(&s, ar, targets[t], nb);
    lemma_computes(&s, ar, c);
    assert(nb[i as int] == i);
    lognormal_is_exact_at_the_data(
        &s,
        ar,
        c,
        data.attributes(),
        nb,
        i as int,
        targets[t],
        e,
        l,
    );
}

/// Regression kriging from all data is exact at them: where the system at the target can be
/// solved, the estimate at data point `i`, with the trend there, is its value.
pub proof fn regression_prediction_is_exact_at_the_data<const D: usize, F: Fn(Op, Double, Double) -> Double, G: Fn([Double; D]) -> Double>(
    rk: &RegressionKriging<D>,
    ar: Arithmetic<F>,
    c: Numbers,
    data: &PointSet<D>,
    trend_at_data: Seq<Double>,
    targets: Seq<[Double; D]>,
    trend: Seq<Double>,
    model: &Covariance<D, G>,
    config: KrigingConfig,
    out: Vec<KrigingEstimate>,
    t: int,
    i: usize,
)
    requires
        data.well_formed(),
        rk.rest().places() == data.places(),
        rk.rest().attributes() == less_trend(ar, data.attributes(), trend_at_data),
        config.global(),
        krigs_in(ar, c, *model, config, rk.rest().attributes()),
        symmetric(ar, *model),
        rk.predicted(ar, targets, trend, model, config, Ok(out)),
        0 <= t < targets.len(),
        i < data.places().len(),
        targets[t]@ == data.places()[i as int]@,
        trend[t] == trend_at_data[i as int],
        all_numbers(c, targets[t]@),
        c(data.attributes()[i as int]),
        c(trend[t]),
        !out@[t].variance.nan(),
    ensures
        out@[t].value == data.attributes()[i as int],
        out@[t].variance == num(0),
{
    let k = choose|k: Kriging<D, G>| #[trigger]
        k.built(ar, &rk.rest(), model, config, Seq::empty(), Seq::empty()) && trended(
            ar,
            k,
            targets,
            trend,
            out@,
        );
    let es = choose|es: Seq<KrigingEstimate>| #[trigger]
        k.fills(ar, targets, es) && out@ == Seq::new(
            es.len(),
            |i: int| with_trend(ar, trend[i], es[i]),
        );
    let s = k.setting();
    let e = es[t];
    assert(k.filled(ar, targets[t], es[t]));
    let r = choose|r: Result<KrigingEstimate, GeostatError>| #[trigger]
        k.answers(ar, targets[t], r) && e == or_nan(r);
    assert(out@[t] == with_trend(ar, trend[t], e));
    assert(r is Ok);
    let nb = choose|nb: Seq<usize>| #[trigger]
        s.is_neighborhood(ar, targets[t], nb) && s.kriged(ar, targets[t], Seq::empty(), nb, r);
    lemma_everyone(&s, ar, targets[t], nb);
    lemma_computes(&s, ar, c);
    assert(nb[i as int] == i);
    regression_is_exact_at_the_data(
        &s,
        ar,
        c,
        data.attributes(),
        trend_at_data,
        nb,
        i as int,
        targets[t],
        e,
    );
}

/// Regression kriging with a constant trend, from all data, is ordinary kriging of them:
/// where the system at the target can be solved, value, variance and multiplier are the
/// same.
pub proof fn constant_trend_prediction_is_ordinary<'a, const D: usize, F: Fn(Op, Double, Double) -> Double, G: Fn([Double; D]) -> Double>(
    rk: &RegressionKriging<D>,
    whole: &Kriging<'a, D, G>,
    ar: Arithmetic<F>,
    c: Numbers,
    data: &PointSet<D>,
    level: Double,
    targets: Seq<[Double; D]>,
    model: &Covariance<D, G>,
    config: KrigingConfig,
    out: Vec<KrigingEstimate>,
    t: int,
    f: KrigingEstimate,
)
    requires
        data.well_formed(),
        rk.rest().places() == data.places(),
        rk.rest().attributes() == less_trend(
            ar,
            data.attributes(),
            Seq::new(data.attributes().len(), |i: int| level),
        ),
        config.global(),
        config.method is Ordinary,
        krigs_in(ar, c, *model, config, data.attributes()),
        c(level),
        rk.predicted(
            ar,
            targets,
            Seq::new(targets.len(), |u: int| level),
            model,
            config,
            Ok(out),
        ),
        whole.built(ar, data, model, config, Seq::empty(), Seq::empty()),
        0 <= t < targets.len(),
        all_numbers(c, targets[t]@),
        whole.answers(ar, targets[t], Ok(f)),
        !out@[t].variance.nan(),
    ensures
        out@[t] == f,
{
    let trend = Seq::new(targets.len(), |u: int| level);
    let k = choose|k: Kriging<D, G>| #[trigger]
        k.built(ar, &rk.rest(), model, config, Seq::empty(), Seq::empty()) && trended(
            ar,
            k,
            targets,
            trend,
            out@,
        );
    let es = choose|es: Seq<KrigingEstimate>| #[trigger]
        k.fills(ar, targets, es) && out@ == Seq::new(
            es.len(),
            |i: int| with_trend(ar, trend[i], es[i]),
        );
    let (s, all) = (k.setting(), whole.setting());
    let e = es[t];
    assert(k.filled(ar, targets[t], es[t]));
    let r = choose|r: Result<KrigingEstimate, GeostatError>| #[trigger]
        k.answers(ar, targets[t], r) && e == or_nan(r);
    assert(out@[t] == with_trend(ar, level, e));
    assert(r is Ok);
    let n1 = choose|nb: Seq<usize>| #[trigger]
        s.is_neighborhood(ar, targets[t], nb) && s.kriged(ar, targets[t], Seq::empty(), nb, r);
    let n2 = choose|nb: Seq<usize>| #[trigger]
        all.is_neighborhood(ar, targets[t], nb) && all.kriged(
            ar,
            targets[t],
            Seq::empty(),
            nb,
            Ok(f),
        );
    lemma_everyone(&s, ar, targets[t], n1);
    lemma_everyone(&all, ar, targets[t], n2);
    lemma_computes(&all, ar, c);
    let b = all.rhs(ar, n2, targets[t]@, Seq::empty());
    closed(ar, c, num(0), num(ONE));
    assert forall|j: int| 0 <= j < b.len() implies c(#[trigger] b[j]) by {
        if j < n2.len() {
            let h = ar.separation(all.data.places()[n2[j] as int]@, targets[t]@);
            assert(c(all.model.semivariance(h)));
            closed(ar, c, all.model.sill, all.model.semivariance(h));
        }
    }
    constant_trend_leaves_ordinary_kriging(&s, &all, ar, c, level, n2, targets[t], e, f);
}

} // verus!

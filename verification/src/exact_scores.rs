//! Normal scores of simulations, over an arithmetic without rounding: quantiles of the
//! plotting positions that the declustering weights give the data, and the way back.

use vstd::prelude::*;

use crate::algebra::{lemma_minus_undoes, lemma_quotient_is, lemma_sum_with};
use crate::arith::{num, Arithmetic, Op, HALF};
use crate::covariance::Covariance;
use crate::data::{finite_values, PointSet};
use crate::double::{Double, ONE};
use crate::exact::{all_numbers, closed, exact, times_associates, Numbers};
use crate::exact_collocated::lemma_over_itself;
use crate::gaussian::is_field;
use crate::order::stable_order;
use crate::rng::stream_seed;
use crate::sgs::{
    all_mapped_back, is_realization, numbers, prepared, realized, sgs_outcome, SgsConfig,
};
use crate::stage::Stage;
use crate::tails::TailModel;
use crate::transform::{
    arranged, between, cuts_into_ties, fits_with, fitted, lemma_sorted, looked_up, normal_quantile,
    scores_of, strictly_ascending, total_keys, NormalScore,
};

verus! {

/// No two values are equal.
pub open spec fn distinct(values: Seq<Double>) -> bool {
    forall|i: int, j: int|
        0 <= i < values.len() && 0 <= j < values.len() && i != j ==> !(
        #[trigger] values[i]).equals(#[trigger] values[j])
}

/// Plotting position of datum `i`: the weights of the smaller data and half of its own, as
/// a part of all weights.
pub open spec fn plotting_position<F: Fn(Op, Double, Double) -> Double>(
    ar: Arithmetic<F>,
    values: Seq<Double>,
    weights: Seq<Double>,
    i: int,
) -> Double {
    ar.over(
        ar.plus(
            ar.accumulated(
                Seq::new(
                    values.len(),
                    |j: int|
                        if values[j].below(values[i]) {
                            weights[j]
                        } else {
                            num(0)
                        },
                ),
            ),
            ar.times(num(HALF), weights[i]),
        ),
        ar.accumulated(weights),
    )
}

/// The weights at the first `k` positions of an order, zero elsewhere.
spec fn masked(weights: Seq<Double>, order: Seq<usize>, k: int) -> Seq<Double> {
    Seq::new(
        weights.len(),
        |j: int|
            if exists|a: int| 0 <= a < k && #[trigger] order[a] == j {
                weights[j]
            } else {
                num(0)
            },
    )
}

proof fn lemma_order_once(keys: Seq<i64>, order: Seq<usize>, a: int, b: int)
    requires
        stable_order(keys, order),
        0 <= a < b < order.len(),
    ensures
        order[a] != order[b],
{
    assert(crate::order::precedes(keys, order[a], order[b]));
}

/// The first weights in order, and the weights of the first in order, have one sum.
proof fn lemma_masked<F: Fn(Op, Double, Double) -> Double>(
    ar: Arithmetic<F>,
    c: Numbers,
    keys: Seq<i64>,
    weights: Seq<Double>,
    order: Seq<usize>,
    k: int,
)
    requires
        exact(ar, c),
        all_numbers(c, weights),
        keys.len() == weights.len(),
        stable_order(keys, order),
        0 <= k <= order.len(),
    ensures
        ar.accumulated(arranged(weights, order).take(k)) == ar.accumulated(
            masked(weights, order, k),
        ),
    decreases k,
{
    closed(ar, c, num(0), num(0));
    let now = masked(weights, order, k);
    if k == 0 {
        assert(arranged(weights, order).take(0) =~= Seq::empty());
        assert(now =~= Seq::new(weights.len(), |j: int| num(0)));
        crate::exact_declustering::lemma_zeros(ar, c, weights.len());
    } else {
        lemma_masked(ar, c, keys, weights, order, k - 1);
        let before = masked(weights, order, k - 1);
        let p = order[k - 1] as int;
        let v = weights[p];
        assert(c(v));
        assert(before[p] == num(0)) by {
            if exists|a: int| 0 <= a < k - 1 && #[trigger] order[a] == p {
                let a = choose|a: int| 0 <= a < k - 1 && #[trigger] order[a] == p;
                lemma_order_once(keys, order, a, k - 1);
            }
        }
        assert forall|j: int| 0 <= j < weights.len() implies now[j] == before.update(p, v)[j] by {
            if j == p {
                assert(order[k - 1] == j);
            } else if exists|a: int| 0 <= a < k && #[trigger] order[a] == j {
                let a = choose|a: int| 0 <= a < k && #[trigger] order[a] == j;
                assert(0 <= a < k - 1 && order[a] == j);
            }
        }
        assert(now =~= before.update(p, v));
        assert forall|j: int| 0 <= j < before.len() implies c(#[trigger] before[j]) by {
            assert(c(weights[j]));
        }
        lemma_sum_with(ar, c, before, p, v);
        let list = arranged(weights, order);
        assert(list.take(k).drop_last() =~= list.take(k - 1));
    }
}

/// Without ties every group is one value.
proof fn lemma_single_groups(values: Seq<Double>, order: Seq<usize>, cuts: Seq<int>, g: int)
    requires
        distinct(values),
        finite_values(values),
        stable_order(total_keys(values), order),
        cuts_into_ties(arranged(values, order), cuts),
        0 <= g < cuts.len(),
    ensures
        cuts[g] == g,
    decreases g,
{
    if g > 0 {
        lemma_single_groups(values, order, cuts, g - 1);
        let sorted = arranged(values, order);
        let h = g - 1;
        assert(cuts[h] < cuts[g]);
        if cuts[g] > g {
            assert(cuts[g] <= cuts[cuts.len() - 1]);
            assert(sorted[g].equals(sorted[cuts[h]]));
            lemma_order_once(total_keys(values), order, h, g);
            assert(!values[order[h] as int].equals(values[order[g] as int]));
        }
    }
}

/// The knots of a fit to distinct data are the data in ascending order, each with the
/// quantile of its plotting position.
proof fn lemma_knots<F: Fn(Op, Double, Double) -> Double>(
    ar: Arithmetic<F>,
    c: Numbers,
    ns: NormalScore,
    values: Seq<Double>,
    weights: Seq<Double>,
    i: int,
) -> (g: int)
    requires
        exact(ar, c),
        distinct(values),
        finite_values(values),
        values.len() <= usize::MAX,
        weights.len() == values.len(),
        all_numbers(c, weights),
        forall|j: int| 0 <= j < weights.len() ==> #[trigger] weights[j] != num(0),
        0 <= i < values.len(),
        c(normal_quantile(ar, plotting_position(ar, values, weights, i))),
        fitted(ar, ns, values, weights),
    ensures
        0 <= g < ns.values().len(),
        ns.values().len() == values.len(),
        ns.scores().len() == values.len(),
        ns.values()[g] == values[i],
        ns.scores()[g] == normal_quantile(ar, plotting_position(ar, values, weights, i)),
{
    let (order, cuts) = choose|order: Seq<usize>, cuts: Seq<int>| #[trigger]
        fits_with(ar, ns, values, weights, order, cuts);
    let keys = total_keys(values);
    let sorted = arranged(values, order);
    let sw = arranged(weights, order);
    let n = values.len() as int;
    lemma_single_groups(values, order, cuts, cuts.len() - 1);
    assert(order.contains(i as usize));
    let g = choose|g: int| 0 <= g < order.len() && order[g] == i as usize;
    lemma_single_groups(values, order, cuts, g);
    lemma_single_groups(values, order, cuts, g + 1);
    assert(ns.values()[g] == sorted[cuts[g]]);
    crate::exact::lemma_total_start(ar, c, weights);
    let total = ar.total_of(weights);
    let all = scores_of(ar, sw, total);
    let (ws, ss) = (sw.subrange(g, g + 1), all.subrange(g, g + 1));
    assert(ns.scores()[g] == crate::transform::weighted_mean(ar, ws, ss));
    // The mean of one score.
    let (w, s) = (weights[i], all[g]);
    assert(c(w) && w != num(0));
    reveal_with_fuel(crate::arith::Arithmetic::dot_from, 2);
    reveal_with_fuel(crate::arith::Arithmetic::accumulated, 2);
    assert(ws.drop_last() =~= Seq::empty());
    assert(ws[0] == w && ss[0] == s);
    // Its plotting position.
    lemma_masked(ar, c, keys, weights, order, g);
    lemma_sorted(values, keys, order);
    let smaller = Seq::new(
        values.len(),
        |j: int|
            if values[j].below(values[i]) {
                weights[j]
            } else {
                num(0)
            },
    );
    assert forall|j: int| 0 <= j < n implies smaller[j] == masked(weights, order, g)[j] by {
        assert(order.contains(j as usize));
        let a = choose|a: int| 0 <= a < order.len() && order[a] == j as usize;
        assert(sorted[a] == values[j] && sorted[g] == values[i]);
        if a < g {
            assert(sorted[a].at_most(sorted[g]));
            lemma_order_once(keys, order, a, g);
            assert(!values[j].equals(values[i]));
            assert(order[a] == j);
        } else {
            if a > g {
                assert(sorted[g].at_most(sorted[a]));
            }
            if exists|b: int| 0 <= b < g && #[trigger] order[b] == j {
                let b = choose|b: int| 0 <= b < g && #[trigger] order[b] == j;
                lemma_order_once(keys, order, b, a);
            }
        }
    }
    assert(smaller =~= masked(weights, order, g));
    assert(s == normal_quantile(ar, plotting_position(ar, values, weights, i)));
    closed(ar, c, w, s);
    closed(ar, c, w, w);
    closed(ar, c, ar.times(w, s), w);
    closed(ar, c, s, w);
    lemma_quotient_is(ar, c, s, ar.times(s, w), w);
    g
}

/// A table gives the entry of its knot.
proof fn lemma_at_knot<F: Fn(Op, Double, Double) -> Double>(
    ar: Arithmetic<F>,
    c: Numbers,
    xs: Seq<Double>,
    ys: Seq<Double>,
    g: int,
    y: Double,
)
    requires
        exact(ar, c),
        strictly_ascending(xs),
        ys.len() == xs.len(),
        all_numbers(c, xs),
        all_numbers(c, ys),
        0 <= g < xs.len(),
        looked_up(ar, xs, ys, xs[g], y),
    ensures
        y == ys[g],
{
    let n = xs.len() as int;
    let x = xs[g];
    assert(!x.nan());
    if g > 0 {
        assert(xs[0].below(x));
        if g < n - 1 {
            assert(x.below(xs[n - 1]));
            let hi = choose|hi: int|
                0 < hi < xs.len() && (#[trigger] xs[hi - 1]).below(x) && x.at_most(xs[hi]) && y
                    == between(ar, xs[hi - 1], xs[hi], ys[hi - 1], ys[hi], x);
            if hi < g {
                assert(xs[hi].below(x));
            } else if hi > g {
                if hi - 1 > g {
                    assert(x.below(xs[hi - 1]));
                }
            }
            assert(hi == g);
            let a = xs[g - 1];
            assert(c(a) && c(x) && c(ys[g - 1]) && c(ys[g]));
            assert(a.below(x));
            closed(ar, c, x, a);
            let d = ar.minus(x, a);
            if d == num(0) {
                closed(ar, c, a, num(0));
                lemma_minus_undoes(ar, c, x, a);
            }
            lemma_over_itself(ar, c, d);
            closed(ar, c, ys[g], ys[g - 1]);
            closed(ar, c, ar.minus(ys[g], ys[g - 1]), num(ONE));
            lemma_minus_undoes(ar, c, ys[g], ys[g - 1]);
        }
    }
}

/// Between two knots a table gives the point on the line through them.
proof fn lemma_between_knots<F: Fn(Op, Double, Double) -> Double>(
    ar: Arithmetic<F>,
    c: Numbers,
    xs: Seq<Double>,
    ys: Seq<Double>,
    g: int,
    x: Double,
    y: Double,
)
    requires
        exact(ar, c),
        strictly_ascending(xs),
        ys.len() == xs.len(),
        all_numbers(c, xs),
        all_numbers(c, ys),
        c(x),
        0 < g < xs.len(),
        xs[g - 1].below(x),
        x.below(xs[g]),
        looked_up(ar, xs, ys, x, y),
    ensures
        ar.times(ar.minus(y, ys[g - 1]), ar.minus(xs[g], xs[g - 1])) == ar.times(
            ar.minus(x, xs[g - 1]),
            ar.minus(ys[g], ys[g - 1]),
        ),
{
    let n = xs.len() as int;
    assert(!xs[g].nan() && !xs[0].nan() && !xs[n - 1].nan());
    if g - 1 > 0 {
        assert(xs[0].below(xs[g - 1]));
    }
    if g < n - 1 {
        assert(xs[g].below(xs[n - 1]));
    }
    let hi = choose|hi: int|
        0 < hi < xs.len() && (#[trigger] xs[hi - 1]).below(x) && x.at_most(xs[hi]) && y == between(
            ar,
            xs[hi - 1],
            xs[hi],
            ys[hi - 1],
            ys[hi],
            x,
        );
    if hi < g {
        if hi < g - 1 {
            assert(xs[hi].below(xs[g - 1]));
        }
    } else if hi > g {
        if hi - 1 > g {
            assert(xs[g].below(xs[hi - 1]));
        }
    }
    assert(hi == g);
    let (a, b) = (xs[g - 1], xs[g]);
    let (p, q) = (ys[g - 1], ys[g]);
    assert(c(a) && c(b) && c(p) && c(q));
    assert(a.below(b));
    closed(ar, c, b, a);
    closed(ar, c, x, a);
    closed(ar, c, q, p);
    let (d, f, e) = (ar.minus(b, a), ar.minus(x, a), ar.minus(q, p));
    if d == num(0) {
        closed(ar, c, a, num(0));
        lemma_minus_undoes(ar, c, b, a);
    }
    closed(ar, c, f, d);
    let t = ar.over(f, d);
    closed(ar, c, t, e);
    lemma_minus_undoes(ar, c, ar.times(t, e), p);
    closed(ar, c, p, ar.times(t, e));
    // (t e) d = (t d) e = f e.
    closed(ar, c, e, d);
    times_associates(ar, c, t, e, d);
    times_associates(ar, c, t, d, e);
}

/// What value `z` a simulated score `f` stands for, given the data and their scores: that
/// of the datum whose score it is; between the scores of two data with none between them,
/// the point on the line through the two; beyond all scores, where the tail is clamped, the
/// extreme value.
pub open spec fn stands_for<F: Fn(Op, Double, Double) -> Double>(
    ar: Arithmetic<F>,
    values: Seq<Double>,
    scores: Seq<Double>,
    clamped_below: bool,
    clamped_above: bool,
    f: Double,
    z: Double,
) -> bool {
    &&& forall|i: int| 0 <= i < values.len() && #[trigger] scores[i] == f ==> z == values[i]
    &&& forall|i: int, k: int|
        0 <= i < values.len() && 0 <= k < values.len() && (#[trigger] scores[i]).below(f) && f.below(
            #[trigger] scores[k],
        ) && (forall|j: int|
            0 <= j < values.len() ==> values[j].at_most(values[i]) || values[k].at_most(
                #[trigger] values[j],
            )) ==> ar.times(ar.minus(z, values[i]), ar.minus(scores[k], scores[i])) == ar.times(
            ar.minus(f, scores[i]),
            ar.minus(values[k], values[i]),
        )
    &&& clamped_below ==> forall|i: int|
        0 <= i < values.len() && f.below(#[trigger] scores[i]) && (forall|j: int|
            0 <= j < values.len() ==> values[i].at_most(#[trigger] values[j])) ==> z == values[i]
    &&& clamped_above ==> forall|i: int|
        0 <= i < values.len() && (#[trigger] scores[i]).below(f) && (forall|j: int|
            0 <= j < values.len() ==> (#[trigger] values[j]).at_most(values[i])) ==> z == values[i]
}

/// The weights of the data in a configuration: those given, or one for each.
pub open spec fn declustering(cfg: SgsConfig, n: nat) -> Seq<Double> {
    if cfg.decluster_weights is Some {
        cfg.decluster_weights->0@
    } else {
        Seq::new(n, |i: int| num(ONE))
    }
}

/// The scores ascend with the values, and are numbers.
pub open spec fn scores_ascend<F: Fn(Op, Double, Double) -> Double>(
    ar: Arithmetic<F>,
    c: Numbers,
    values: Seq<Double>,
    weights: Seq<Double>,
) -> bool {
    &&& forall|i: int|
        0 <= i < values.len() ==> c(
            normal_quantile(ar, #[trigger] plotting_position(ar, values, weights, i)),
        )
    &&& forall|i: int, k: int|
        #![trigger plotting_position(ar, values, weights, i), plotting_position(ar, values, weights, k)]
        0 <= i < values.len() && 0 <= k < values.len() && values[i].below(values[k])
            ==> normal_quantile(ar, plotting_position(ar, values, weights, i)).below(
            normal_quantile(ar, plotting_position(ar, values, weights, k)),
        )
}

/// `out` is a field of a seed, simulated from scores of the data, in data units.
pub open spec fn simulated_from<const D: usize, F: Fn(Op, Double, Double) -> Double, G: Fn([Double; D]) -> Double>(
    stage: &Stage<D>,
    ar: &Arithmetic<F>,
    c: Numbers,
    model: &Covariance<D, G>,
    levels: Option<Seq<u8>>,
    values: Seq<Double>,
    scores: Seq<Double>,
    cfg: SgsConfig,
    seed: u64,
    out: Seq<Double>,
) -> bool {
    exists|field: Seq<Double>| #[trigger]
        is_field(stage, ar, model, levels, scores, cfg.quotas(), seed, field) && out.len()
            == field.len() && forall|j: int|
            0 <= j < field.len() && c(#[trigger] field[j]) ==> stands_for(
                *ar,
                values,
                scores,
                cfg.tails.lower == TailModel::Clamped,
                cfg.tails.upper == TailModel::Clamped,
                field[j],
                out[j],
            )
}

/// Simulations use the weighted distribution of the data: where no two data are equal, the
/// data are simulated with the quantiles of their plotting positions, which the
/// declustering weights of the configuration give them, and every simulated score stands
/// for the value that these scores and the data give it.
pub proof fn simulations_use_the_weighted_distribution<const D: usize, F: Fn(Op, Double, Double) -> Double, G: Fn([Double; D]) -> Double>(
    ar: &Arithmetic<F>,
    c: Numbers,
    data: &PointSet<D>,
    model: &Covariance<D, G>,
    nodes: Seq<[Double; D]>,
    levels: Option<Seq<u8>>,
    cfg: SgsConfig,
    v: Vec<Vec<Double>>,
)
    requires
        exact(*ar, c),
        data.well_formed(),
        data.places().len() <= usize::MAX,
        distinct(data.attributes()),
        all_numbers(c, data.attributes()),
        all_numbers(c, declustering(cfg, data.attributes().len())),
        forall|j: int|
            0 <= j < data.attributes().len() ==> (#[trigger] declustering(
                cfg,
                data.attributes().len(),
            )[j]) != num(0),
        scores_ascend(
            *ar,
            c,
            data.attributes(),
            declustering(cfg, data.attributes().len()),
        ),
        sgs_outcome(ar, data, model, nodes, levels, cfg, Ok(v)),
    ensures
        v@.len() == cfg.n_realizations,
        exists|stage: Stage<D>, scores: Seq<Double>|
            #![trigger stage.is_set(*ar, data.places(), nodes), all_numbers(c, scores)]
            {
                let values = data.attributes();
                let weights = declustering(cfg, values.len());
                &&& stage.is_set(*ar, data.places(), nodes)
                &&& all_numbers(c, scores)
                &&& scores.len() == values.len()
                &&& forall|i: int|
                    0 <= i < values.len() ==> #[trigger] scores[i] == normal_quantile(
                        *ar,
                        plotting_position(*ar, values, weights, i),
                    )
                &&& forall|r: int|
                    0 <= r < v@.len() ==> simulated_from(
                        &stage,
                        ar,
                        c,
                        model,
                        levels,
                        values,
                        scores,
                        cfg,
                        stream_seed(cfg.seed, r as nat),
                        (#[trigger] v@[r])@,
                    )
            },
{
    let values = data.attributes();
    let weights = declustering(cfg, values.len());
    let n = values.len() as int;
    assert(weights =~= cfg.weights(values.len()));
    let (stage, ns, scores) = choose|stage: Stage<D>, ns: NormalScore, scores: Seq<Double>|
        #![trigger stage.is_set(*ar, data.places(), nodes), prepared(*ar, ns, scores, data.attributes(), cfg)]
        stage.is_set(*ar, data.places(), nodes) && prepared(
            *ar,
            ns,
            scores,
            data.attributes(),
            cfg,
        ) && realized(&stage, ar, model, levels, ns, scores, cfg, Ok(v));
    assert(n > 0);
    lemma_table(*ar, c, ns, values, weights);
    assert forall|i: int| 0 <= i < n implies #[trigger] scores[i] == normal_quantile(
        *ar,
        plotting_position(*ar, values, weights, i),
    ) && c(scores[i]) by {
        assert(ns.scored(*ar, values[i], scores[i]));
        lemma_score(*ar, c, ns, values, weights, i, scores[i]);
    }
    assert(all_numbers(c, scores));
    assert forall|r: int| 0 <= r < v@.len() implies simulated_from(
        &stage,
        ar,
        c,
        model,
        levels,
        values,
        scores,
        cfg,
        stream_seed(cfg.seed, r as nat),
        (#[trigger] v@[r])@,
    ) by {
        let seed = stream_seed(cfg.seed, r as nat);
        let out = v@[r]@;
        assert(is_realization(&stage, ar, model, levels, ns, scores, cfg.quotas(), seed, out));
        let field = choose|field: Seq<Double>| #[trigger]
            is_field(&stage, ar, model, levels, scores, cfg.quotas(), seed, field) && numbers(field)
                && all_mapped_back(*ar, ns, field, out);
        assert forall|j: int| 0 <= j < field.len() && c(#[trigger] field[j]) implies stands_for(
            *ar,
            values,
            scores,
            cfg.tails.lower == TailModel::Clamped,
            cfg.tails.upper == TailModel::Clamped,
            field[j],
            out[j],
        ) by {
            assert(!field[j].nan());
            assert(ns.mapped_back(*ar, field[j], out[j]));
            lemma_stands_for(*ar, c, ns, values, weights, scores, field[j], out[j]);
        }
    }
}

/// The score of a datum.
proof fn lemma_score<F: Fn(Op, Double, Double) -> Double>(
    ar: Arithmetic<F>,
    c: Numbers,
    ns: NormalScore,
    values: Seq<Double>,
    weights: Seq<Double>,
    i: int,
    s: Double,
)
    requires
        exact(ar, c),
        distinct(values),
        finite_values(values),
        0 < values.len() <= usize::MAX,
        weights.len() == values.len(),
        all_numbers(c, weights),
        forall|j: int| 0 <= j < weights.len() ==> #[trigger] weights[j] != num(0),
        scores_ascend(ar, c, values, weights),
        fitted(ar, ns, values, weights),
        ns.well_formed(),
        all_numbers(c, ns.values()),
        all_numbers(c, ns.scores()),
        0 <= i < values.len(),
        ns.scored(ar, values[i], s),
    ensures
        s == normal_quantile(ar, plotting_position(ar, values, weights, i)),
        c(s),
{
    assert(c(normal_quantile(ar, plotting_position(ar, values, weights, i))));
    let g = lemma_knots(ar, c, ns, values, weights, i);
    lemma_at_knot(ar, c, ns.values(), ns.scores(), g, s);
}

/// The table is made of numbers, and its scores ascend.
proof fn lemma_table<F: Fn(Op, Double, Double) -> Double>(
    ar: Arithmetic<F>,
    c: Numbers,
    ns: NormalScore,
    values: Seq<Double>,
    weights: Seq<Double>,
)
    requires
        exact(ar, c),
        distinct(values),
        finite_values(values),
        0 < values.len() <= usize::MAX,
        all_numbers(c, values),
        weights.len() == values.len(),
        all_numbers(c, weights),
        forall|j: int| 0 <= j < weights.len() ==> #[trigger] weights[j] != num(0),
        scores_ascend(ar, c, values, weights),
        fitted(ar, ns, values, weights),
        ns.well_formed(),
    ensures
        all_numbers(c, ns.values()),
        all_numbers(c, ns.scores()),
        strictly_ascending(ns.scores()),
{
    let (kv, ks) = (ns.values(), ns.scores());
    let n = values.len() as int;
    lemma_datum_of(ar, c, ns, values, weights);
    assert forall|g: int| 0 <= g < kv.len() implies c(#[trigger] kv[g]) && c(ks[g]) by {
        let i = choose|i: int|
            0 <= i < n && kv[g] == values[i] && ks[g] == normal_quantile(
                ar,
                #[trigger] plotting_position(ar, values, weights, i),
            );
        assert(c(values[i]));
    }
    assert forall|g: int| 0 <= g < ks.len() implies c(#[trigger] ks[g]) by {
        assert(c(kv[g]));
    }
    assert forall|g: int, h: int| 0 <= g < h < ks.len() implies (#[trigger] ks[g]).below(
        #[trigger] ks[h],
    ) by {
        assert(kv[g].below(kv[h]));
        let i = choose|i: int|
            0 <= i < n && kv[g] == values[i] && ks[g] == normal_quantile(
                ar,
                #[trigger] plotting_position(ar, values, weights, i),
            );
        let k = choose|k: int|
            0 <= k < n && kv[h] == values[k] && ks[h] == normal_quantile(
                ar,
                #[trigger] plotting_position(ar, values, weights, k),
            );
        assert(values[i].below(values[k]));
    }
    assert forall|g: int| 0 <= g < ks.len() implies !(#[trigger] ks[g]).nan() by {
        if g + 1 < ks.len() {
            assert(ks[g].below(ks[g + 1]));
        } else {
            assert(ks[g - 1].below(ks[g]));
        }
    }
}

/// Every knot is that of a datum.
proof fn lemma_datum_of<F: Fn(Op, Double, Double) -> Double>(
    ar: Arithmetic<F>,
    c: Numbers,
    ns: NormalScore,
    values: Seq<Double>,
    weights: Seq<Double>,
)
    requires
        exact(ar, c),
        distinct(values),
        finite_values(values),
        0 < values.len() <= usize::MAX,
        weights.len() == values.len(),
        all_numbers(c, weights),
        forall|j: int| 0 <= j < weights.len() ==> #[trigger] weights[j] != num(0),
        forall|i: int|
            0 <= i < values.len() ==> c(
                normal_quantile(ar, #[trigger] plotting_position(ar, values, weights, i)),
            ),
        fitted(ar, ns, values, weights),
        ns.well_formed(),
    ensures
        ns.values().len() == values.len(),
        ns.scores().len() == values.len(),
        forall|g: int|
            0 <= g < ns.values().len() ==> exists|i: int|
                0 <= i < values.len() && (#[trigger] ns.values()[g]) == values[i] && ns.scores()[g]
                    == normal_quantile(ar, #[trigger] plotting_position(ar, values, weights, i)),
{
    let (order, cuts) = choose|order: Seq<usize>, cuts: Seq<int>| #[trigger]
        fits_with(ar, ns, values, weights, order, cuts);
    let sorted = arranged(values, order);
    assert(c(normal_quantile(ar, plotting_position(ar, values, weights, 0))));
    let g0 = lemma_knots(ar, c, ns, values, weights, 0);
    assert forall|g: int| 0 <= g < ns.values().len() implies exists|i: int|
        0 <= i < values.len() && (#[trigger] ns.values()[g]) == values[i] && ns.scores()[g]
            == normal_quantile(ar, #[trigger] plotting_position(ar, values, weights, i)) by {
        lemma_single_groups(values, order, cuts, g);
        assert(ns.values()[g] == sorted[cuts[g]]);
        let i = order[g] as int;
        assert(c(normal_quantile(ar, plotting_position(ar, values, weights, i))));
        let h = lemma_knots(ar, c, ns, values, weights, i);
        if h < g {
            assert(ns.values()[h].below(ns.values()[g]));
        } else if g < h {
            assert(ns.values()[g].below(ns.values()[h]));
        }
    }
}

proof fn lemma_stands_for<F: Fn(Op, Double, Double) -> Double>(
    ar: Arithmetic<F>,
    c: Numbers,
    ns: NormalScore,
    values: Seq<Double>,
    weights: Seq<Double>,
    scores: Seq<Double>,
    f: Double,
    z: Double,
)
    requires
        exact(ar, c),
        distinct(values),
        finite_values(values),
        0 < values.len() <= usize::MAX,
        weights.len() == values.len(),
        all_numbers(c, weights),
        forall|j: int| 0 <= j < weights.len() ==> #[trigger] weights[j] != num(0),
        forall|i: int|
            0 <= i < values.len() ==> c(
                normal_quantile(ar, #[trigger] plotting_position(ar, values, weights, i)),
            ),
        forall|i: int|
            0 <= i < values.len() ==> #[trigger] scores[i] == normal_quantile(
                ar,
                plotting_position(ar, values, weights, i),
            ),
        fitted(ar, ns, values, weights),
        ns.well_formed(),
        strictly_ascending(ns.scores()),
        all_numbers(c, ns.values()),
        all_numbers(c, ns.scores()),
        !f.nan(),
        c(f),
        ns.mapped_back(ar, f, z),
    ensures
        stands_for(
            ar,
            values,
            scores,
            ns.tail_options().lower == TailModel::Clamped,
            ns.tail_options().upper == TailModel::Clamped,
            f,
            z,
        ),
{
    let (kv, ks) = (ns.values(), ns.scores());
    let n = values.len() as int;
    lemma_datum_of(ar, c, ns, values, weights);
    assert(!ks[0].nan() && !ks[n - 1].nan());
    assert forall|i: int| 0 <= i < n && #[trigger] scores[i] == f implies z == values[i] by {
        assert(c(normal_quantile(ar, plotting_position(ar, values, weights, i))));
        let g = lemma_knots(ar, c, ns, values, weights, i);
        assert(ks[g] == f);
        if g > 0 {
            assert(ks[0].below(ks[g]));
        }
        if g < n - 1 {
            assert(ks[g].below(ks[n - 1]));
        }
        lemma_at_knot(ar, c, ks, kv, g, z);
    }
    assert forall|i: int, k: int|
        0 <= i < n && 0 <= k < n && (#[trigger] scores[i]).below(f) && f.below(
            #[trigger] scores[k],
        ) && (forall|j: int|
            0 <= j < n ==> values[j].at_most(values[i]) || values[k].at_most(
                #[trigger] values[j],
            )) implies ar.times(ar.minus(z, values[i]), ar.minus(scores[k], scores[i])) == ar.times(
        ar.minus(f, scores[i]),
        ar.minus(values[k], values[i]),
    ) by {
        assert(c(normal_quantile(ar, plotting_position(ar, values, weights, i))));
        assert(c(normal_quantile(ar, plotting_position(ar, values, weights, k))));
        let g = lemma_knots(ar, c, ns, values, weights, i);
        let h = lemma_knots(ar, c, ns, values, weights, k);
        if h <= g {
            if h < g {
                assert(ks[h].below(ks[g]));
            }
            assert(false);
        }
        if g + 1 < h {
            let m = g + 1;
            let j = choose|j: int|
                0 <= j < n && kv[m] == values[j] && ks[m] == normal_quantile(
                    ar,
                    #[trigger] plotting_position(ar, values, weights, j),
                );
            assert(kv[g].below(kv[m]) && kv[m].below(kv[h]));
            assert(values[j].at_most(values[i]) || values[k].at_most(values[j]));
        }
        assert(h == g + 1);
        if g > 0 {
            assert(ks[0].below(ks[g]));
        }
        if h < n - 1 {
            assert(ks[h].below(ks[n - 1]));
        }
        lemma_between_knots(ar, c, ks, kv, h, f, z);
    }
    if ns.tail_options().lower == TailModel::Clamped {
        assert forall|i: int|
            0 <= i < n && f.below(#[trigger] scores[i]) && (forall|j: int|
                0 <= j < n ==> values[i].at_most(#[trigger] values[j])) implies z == values[i] by {
            assert(c(normal_quantile(ar, plotting_position(ar, values, weights, i))));
            let g = lemma_knots(ar, c, ns, values, weights, i);
            if g > 0 {
                let j = choose|j: int|
                    0 <= j < n && kv[0] == values[j] && ks[0] == normal_quantile(
                        ar,
                        #[trigger] plotting_position(ar, values, weights, j),
                    );
                assert(kv[0].below(kv[g]));
                assert(values[i].at_most(values[j]));
            }
            if n > 1 {
                assert(ks[0].below(ks[n - 1]));
            }
        }
    }
    if ns.tail_options().upper == TailModel::Clamped {
        assert forall|i: int|
            0 <= i < n && (#[trigger] scores[i]).below(f) && (forall|j: int|
                0 <= j < n ==> (#[trigger] values[j]).at_most(values[i])) implies z == values[i] by {
            assert(c(normal_quantile(ar, plotting_position(ar, values, weights, i))));
            let g = lemma_knots(ar, c, ns, values, weights, i);
            if g < n - 1 {
                let j = choose|j: int|
                    0 <= j < n && kv[n - 1] == values[j] && ks[n - 1] == normal_quantile(
                        ar,
                        #[trigger] plotting_position(ar, values, weights, j),
                    );
                assert(kv[g].below(kv[n - 1]));
                assert(values[j].at_most(values[i]));
            }
            if n > 1 {
                assert(ks[0].below(ks[n - 1]));
            }
        }
    }
}

} // verus!

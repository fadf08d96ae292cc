//! Draws over an arithmetic without rounding: a value drawn from a local distribution is
//! its quantile, a Gaussian draw deviates from the kriging mean by as many standard
//! deviations as were drawn, and categories are cut at the quantiles of their shares.

use vstd::prelude::*;

use crate::algebra::{lemma_minus_undoes, lemma_quotient_is};
use crate::arith::{num, Arithmetic, Op};
use crate::ccdf::{drawn, drawn_in, in_unit, is_class, Classes, NARROWEST};
use crate::covariance::Covariance;
use crate::double::{Double, ONE};
use crate::error::GeostatError;
use crate::exact::{all_numbers, closed, distributes, exact, times_associates, Numbers};
use crate::exact_definite::{root_law, roots_exact};
use crate::gaussian::{gauss_step, is_field};
use crate::rng::{is_pair, pairs_up, stream_seed, Words, MINUS_TWO, TWO_PI};
use crate::simple::sk_estimate;
use crate::stage::Stage;
use crate::tails::TailModel;
use crate::tgs::{
    all_classified, is_category, is_cut_field, pseudo_of, pseudo_values, tgs_outcome, thresholds_of,
    CategoricalData, TgsConfig,
};
use crate::transform::normal_quantile;

verus! {

/// Value of a distribution at the end of class `k`, one after the last.
pub open spec fn cdf_at(ccdf: Seq<Double>, k: int) -> Double {
    if k < 0 {
        num(0)
    } else if k >= ccdf.len() {
        num(ONE)
    } else {
        ccdf[k]
    }
}

/// Powers undo the roots of shares, and the first power is the share.
pub open spec fn powers_undo<F: Fn(Op, Double, Double) -> Double>(ar: Arithmetic<F>, c: Numbers) -> bool {
    &&& forall|t: Double, w: Double|
        #![trigger ar.pow(t, ar.over(num(ONE), w))]
        c(t) && c(w) && in_unit(t) ==> c(ar.pow(t, ar.over(num(ONE), w))) && ar.pow(
            ar.pow(t, ar.over(num(ONE), w)),
            w,
        ) == t
    &&& forall|t: Double| c(t) ==> #[trigger] ar.pow(t, num(ONE)) == t
}

/// `z` stands at the share `t` of the probability between two ends: the share of the way
/// there, to the power `w`, is `t`.
pub open spec fn at_share<F: Fn(Op, Double, Double) -> Double>(
    ar: Arithmetic<F>,
    a: Double,
    b: Double,
    w: Double,
    t: Double,
    z: Double,
) -> bool {
    ar.pow(ar.over(ar.minus(z, a), ar.minus(b, a)), w) == t
}

/// `z` is the quantile `u` of class `k` of a distribution: with `t` the share of the
/// probability of the class that lies below `u`, it stands at `t` between the cutoffs; in a
/// tail as its model has it.
pub open spec fn is_quantile<F: Fn(Op, Double, Double) -> Double>(
    ar: Arithmetic<F>,
    ccdf: Seq<Double>,
    cl: Classes,
    u: Double,
    k: int,
    t: Double,
    z: Double,
) -> bool {
    let n = ccdf.len() as int;
    &&& 0 <= k <= n
    &&& forall|j: int| 0 <= j < k ==> !u.at_most(#[trigger] ccdf[j])
    &&& k < n ==> u.at_most(ccdf[k])
    &&& ar.times(t, ar.minus(cdf_at(ccdf, k), cdf_at(ccdf, k - 1))) == ar.minus(
        u,
        cdf_at(ccdf, k - 1),
    )
    &&& if k == 0 {
        match cl.lower_tail {
            TailModel::Linear => at_share(ar, cl.tail_min, cl.cutoffs@[0], num(ONE), t, z),
            TailModel::Power(w) => at_share(ar, cl.tail_min, cl.cutoffs@[0], w, t, z),
            _ => z == cl.cutoffs@[0],
        }
    } else if k == n {
        match cl.upper_tail {
            TailModel::Clamped => z == cl.cutoffs@[n - 1],
            TailModel::Linear => at_share(ar, cl.cutoffs@[n - 1], cl.tail_max, num(ONE), t, z),
            TailModel::Power(w) => at_share(ar, cl.cutoffs@[n - 1], cl.tail_max, w, t, z),
            TailModel::Hyperbolic(w) => z == cl.tail_max || ar.pow(
                ar.over(cl.cutoffs@[n - 1], z),
                w,
            ) == ar.minus(num(ONE), t),
        }
    } else {
        at_share(ar, cl.cutoffs@[k - 1], cl.cutoffs@[k], num(ONE), t, z)
    }
}

/// The bounds and exponents that a distribution is drawn from are numbers, and the ends of
/// every class are apart.
pub open spec fn classes_numeric<F: Fn(Op, Double, Double) -> Double>(ar: Arithmetic<F>, c: Numbers, cl: Classes) -> bool {
    let cs = cl.cutoffs@;
    &&& cs.len() > 0
    &&& all_numbers(c, cs)
    &&& c(cl.tail_min)
    &&& c(cl.tail_max)
    &&& ar.minus(cs[0], cl.tail_min) != num(0)
    &&& ar.minus(cl.tail_max, cs[cs.len() - 1]) != num(0)
    &&& forall|k: int| 0 < k < cs.len() ==> ar.minus(#[trigger] cs[k], cs[k - 1]) != num(0)
    &&& cl.lower_tail matches TailModel::Power(w) ==> c(w)
    &&& cl.upper_tail matches TailModel::Power(w) ==> c(w)
    &&& cl.upper_tail matches TailModel::Hyperbolic(w) ==> forall|p: Double|
        #![trigger ar.pow(p, ar.over(num(crate::tails::MINUS_ONE), w))]
        c(p) && p.positive() ==> ar.pow(
            ar.over(
                cs[cs.len() - 1],
                ar.times(
                    cs[cs.len() - 1],
                    ar.pow(p, ar.over(num(crate::tails::MINUS_ONE), w)),
                ),
            ),
            w,
        ) == p
}

/// A point that lies a share of the way between two ends.
proof fn lemma_share<F: Fn(Op, Double, Double) -> Double>(
    ar: Arithmetic<F>,
    c: Numbers,
    a: Double,
    b: Double,
    s: Double,
)
    requires
        exact(ar, c),
        c(a),
        c(b),
        c(s),
        ar.minus(b, a) != num(0),
    ensures
        ar.over(ar.minus(ar.plus(a, ar.times(ar.minus(b, a), s)), a), ar.minus(b, a)) == s,
        ar.over(ar.minus(ar.plus(a, ar.times(s, ar.minus(b, a))), a), ar.minus(b, a)) == s,
{
    closed(ar, c, b, a);
    let d = ar.minus(b, a);
    closed(ar, c, s, d);
    closed(ar, c, a, ar.times(s, d));
    lemma_minus_undoes(ar, c, ar.times(s, d), a);
    lemma_quotient_is(ar, c, s, ar.times(s, d), d);
}

/// Values are drawn as quantiles: what the probability `u` draws from a distribution is
/// its quantile `u`, where the classes have a probability.
pub proof fn drawn_values_are_quantiles<F: Fn(Op, Double, Double) -> Double>(
    ar: Arithmetic<F>,
    c: Numbers,
    ccdf: Seq<Double>,
    cl: Classes,
    u: Double,
    z: Double,
)
    requires
        exact(ar, c),
        powers_undo(ar, c),
        classes_numeric(ar, c, cl),
        ccdf.len() == cl.cutoffs@.len(),
        all_numbers(c, ccdf),
        c(u),
        forall|k: int|
            0 <= k <= ccdf.len() && #[trigger] is_class(ccdf, u, k) ==> {
                let p = ar.minus(cdf_at(ccdf, k), cdf_at(ccdf, k - 1));
                &&& num(NARROWEST).below(p)
                &&& p != num(0)
                &&& in_unit(ar.over(ar.minus(u, cdf_at(ccdf, k - 1)), p))
                &&& ar.minus(
                    num(ONE),
                    ar.over(ar.minus(u, cdf_at(ccdf, k - 1)), p),
                ).positive() && num(crate::arith::LEAST).at_most(
                    ar.minus(num(ONE), ar.over(ar.minus(u, cdf_at(ccdf, k - 1)), p)),
                )
            },
        drawn(ar, ccdf, cl, u, z),
    ensures
        exists|k: int, t: Double| #[trigger] is_quantile(ar, ccdf, cl, u, k, t, z),
{
    let k = choose|k: int| #[trigger] is_class(ccdf, u, k) && z == drawn_in(ar, ccdf, cl, u, k);
    let n = ccdf.len() as int;
    let cs = cl.cutoffs@;
    closed(ar, c, num(0), num(ONE));
    let (lo, hi) = (cdf_at(ccdf, k - 1), cdf_at(ccdf, k));
    assert(c(lo) && c(hi)) by {
        if 0 <= k - 1 < n {
            assert(c(ccdf[k - 1]));
        }
        if 0 <= k < n {
            assert(c(ccdf[k]));
        }
    }
    assert(lo == crate::ccdf::class_floor(ccdf, k) && hi == crate::ccdf::class_ceiling(ccdf, k));
    let p = ar.minus(hi, lo);
    closed(ar, c, hi, lo);
    closed(ar, c, u, lo);
    let t = ar.over(ar.minus(u, lo), p);
    closed(ar, c, ar.minus(u, lo), p);
    assert(crate::ccdf::position(ar, u, lo, hi) == t);
    assert(in_unit(t));
    assert(t.clamp(num(0), num(ONE)) == t);
    assert(ar.over(num(ONE), num(ONE)) == num(ONE)) by {
        crate::exact_collocated::lemma_over_itself(ar, c, num(ONE));
    }
    assert(ar.pow(t, num(ONE)) == t);
    assert(c(cs[0]) && c(cs[n - 1]));
    if k == n {
        let (a, b) = (cs[n - 1], cl.tail_max);
        match cl.upper_tail {
            TailModel::Clamped => {},
            TailModel::Linear => {
                lemma_share(ar, c, a, b, t);
            },
            TailModel::Power(w) => {
                let s = ar.pow(t, ar.over(num(ONE), w));
                lemma_share(ar, c, a, b, s);
            },
            TailModel::Hyperbolic(w) => {
                let q = ar.minus(num(ONE), t);
                closed(ar, c, num(ONE), t);
                assert(q.max(num(crate::arith::LEAST)) == q);
            },
        }
    } else if k == 0 {
        let (a, b) = (cl.tail_min, cs[0]);
        match cl.lower_tail {
            TailModel::Linear => {
                lemma_share(ar, c, a, b, t);
            },
            TailModel::Power(w) => {
                let s = ar.pow(t, ar.over(num(ONE), w));
                lemma_share(ar, c, a, b, s);
            },
            _ => {},
        }
    } else {
        assert(c(cs[k - 1]) && c(cs[k]));
        assert(ar.minus(cs[k], cs[k - 1]) != num(0));
        lemma_share(ar, c, cs[k - 1], cs[k], t);
    }
    assert(is_quantile(ar, ccdf, cl, u, k, t, z));
}

/// A Gaussian draw deviates from the kriging mean by as many standard deviations as were
/// drawn: `root` squared is the kriging variance (the sill where there are no neighbors,
/// with a mean of zero), it is not negative, and the deviation is `root` times the draw.
pub proof fn gaussian_draws_deviate_by_standard_deviations<const D: usize, F: Fn(Op, Double, Double) -> Double, G: Fn([Double; D]) -> Double>(
    stage: &Stage<D>,
    ar: &Arithmetic<F>,
    c: Numbers,
    model: &Covariance<D, G>,
    node: usize,
    places: Seq<usize>,
    values: Seq<Double>,
    draw: Double,
    z: Double,
)
    requires
        exact(*ar, c),
        roots_exact(*ar, c),
        ar.sqrt(num(0)) == num(0),
        c(draw),
        c(model.sill),
        model.sill.positive(),
        forall|m: Double, v: Double|
            #![trigger sk_estimate(*ar, *model, stage.all@, places, values, stage.nodes@[node as int]@, Ok((m, v)))]
            sk_estimate(
                *ar,
                *model,
                stage.all@,
                places,
                values,
                stage.nodes@[node as int]@,
                Ok((m, v)),
            ) ==> c(m) && c(v) && !v.negative() && !v.nan(),
        gauss_step(stage, ar, model, node, places, values, draw, Ok(z)),
    ensures
        exists|mean: Double, var: Double, root: Double|
            #![trigger c(mean), c(var), c(root)]
            {
                &&& c(mean) && c(var) && c(root)
                &&& if places.len() == 0 {
                    mean == num(0) && var == model.sill
                } else {
                    sk_estimate(
                        *ar,
                        *model,
                        stage.all@,
                        places,
                        values,
                        stage.nodes@[node as int]@,
                        Ok((mean, var)),
                    )
                }
                &&& root == ar.sqrt(var)
                &&& ar.times(root, root) == var
                &&& ar.minus(z, mean) == ar.times(root, draw)
            },
{
    closed(*ar, c, num(0), num(0));
    let (mean, var) = if places.len() == 0 {
        (num(0), model.sill)
    } else {
        let r: Result<Double, GeostatError> = Ok(z);
        let k = choose|k: Result<(Double, Double), GeostatError>| #[trigger]
            sk_estimate(
                *ar,
                *model,
                stage.all@,
                places,
                values,
                stage.nodes@[node as int]@,
                k,
            ) && match k {
                Err(e) => r == Err::<Double, GeostatError>(e),
                Ok((mean, var)) => r == Ok::<Double, GeostatError>(
                    crate::gaussian::gauss_draw(*ar, mean, var, draw),
                ),
            };
        k->Ok_0
    };
    assert(c(mean) && c(var) && !var.negative() && !var.nan()) by {
        if places.len() > 0 {
            assert(sk_estimate(
                *ar,
                *model,
                stage.all@,
                places,
                values,
                stage.nodes@[node as int]@,
                Ok((mean, var)),
            ));
        }
    }
    assert(var.max(num(0)) == var);
    let root = ar.sqrt(var);
    assert(root_law(*ar, c, var));
    assert(var == num(0) || var.positive());
    closed(*ar, c, root, draw);
    lemma_minus_undoes(*ar, c, ar.times(root, draw), mean);
    closed(*ar, c, mean, ar.times(root, draw));
    assert(c(mean) && c(var) && c(root));
}

/// The two normals of a pair of uniforms lie on a circle: their squares sum to minus twice
/// the logarithm of the first uniform, and their ratio is that of sine and cosine of the
/// second, as a part of a turn.
pub proof fn pairs_of_normals_lie_on_a_circle<F: Fn(Op, Double, Double) -> Double>(
    ar: Arithmetic<F>,
    c: Numbers,
    w: Words,
    k: nat,
    z: Double,
    spare: Double,
)
    requires
        exact(ar, c),
        roots_exact(ar, c),
        pairs_up(ar, w, k, z, spare),
        forall|x: Double|
            #![trigger ar.cos(x)]
            #![trigger ar.sin(x)]
            c(ar.cos(x)) && c(ar.sin(x)) && ar.plus(
                ar.times(ar.cos(x), ar.cos(x)),
                ar.times(ar.sin(x), ar.sin(x)),
            ) == num(ONE),
        forall|u: Double|
            c(ar.times(num(MINUS_TWO), #[trigger] ar.ln(u))) && ar.times(
                num(MINUS_TWO),
                ar.ln(u),
            ).positive(),
    ensures
        exists|u1: Double, u2: Double|
            #![trigger ar.ln(u1), ar.cos(ar.times(num(TWO_PI), u2))]
            {
                &&& u1.exactly((w.after(k).output() >> 11) as nat, 1022)
                &&& u2.exactly((w.after(k + 1).output() >> 11) as nat, 1022)
                &&& ar.plus(ar.times(z, z), ar.times(spare, spare)) == ar.times(
                    num(MINUS_TWO),
                    ar.ln(u1),
                )
                &&& ar.times(z, ar.sin(ar.times(num(TWO_PI), u2))) == ar.times(
                    spare,
                    ar.cos(ar.times(num(TWO_PI), u2)),
                )
            },
{
    let (u1, u2) = choose|u1: Double, u2: Double| #[trigger] is_pair(ar, w, k, u1, u2, z, spare);
    let x = ar.times(num(TWO_PI), u2);
    let (co, si) = (ar.cos(x), ar.sin(x));
    let r2 = ar.times(num(MINUS_TWO), ar.ln(u1));
    assert(c(r2) && r2.positive());
    assert(root_law(ar, c, r2));
    let r = ar.sqrt(r2);
    assert(c(co) && c(si));
    closed(ar, c, co, co);
    closed(ar, c, si, si);
    closed(ar, c, r2, num(ONE));
    crate::algebra::lemma_squares(ar, c, r, r, co, co);
    crate::algebra::lemma_squares(ar, c, r, r, si, si);
    distributes(ar, c, r2, ar.times(co, co), ar.times(si, si));
    closed(ar, c, co, si);
    closed(ar, c, si, co);
    times_associates(ar, c, r, co, si);
    times_associates(ar, c, r, si, co);
}

/// Categories fall into themselves: the value that conditions the field on a category is
/// cut back into that category, for an arithmetic in which the shares add up in order, the
/// middle of a category lies within it, and the quantiles of shares and middle ascend.
pub proof fn conditioning_values_fall_into_their_category<F: Fn(Op, Double, Double) -> Double>(
    ar: Arithmetic<F>,
    props: Seq<Double>,
    k: int,
)
    requires
        0 <= k < props.len(),
        forall|i: int, j: int|
            #![trigger ar.accumulated(props.take(i)), ar.accumulated(props.take(j))]
            0 <= i <= j <= props.len() ==> ar.accumulated(props.take(i)).at_most(
                ar.accumulated(props.take(j)),
            ),
        ({
            let middle = ar.times(
                num(crate::arith::HALF),
                ar.plus(ar.accumulated(props.take(k)), ar.accumulated(props.take(k + 1))),
            );
            &&& ar.accumulated(props.take(k)).below(middle)
            &&& middle.below(ar.accumulated(props.take(k + 1)))
            &&& forall|i: int|
                0 < i <= props.len() ==> {
                    let x = #[trigger] ar.accumulated(props.take(i));
                    &&& x.below(middle) ==> normal_quantile(ar, x).below(
                        normal_quantile(ar, middle),
                    )
                    &&& middle.below(x) ==> normal_quantile(ar, middle).below(
                        normal_quantile(ar, x),
                    )
                }
        }),
    ensures
        is_category(pseudo_of(ar, props, k), thresholds_of(ar, props), k),
        forall|i: int|
            0 <= i < k ==> normal_quantile(
                ar,
                #[trigger] ar.accumulated(props.take(i + 1)),
            ).below(pseudo_of(ar, props, k)),
        forall|i: int|
            k <= i < props.len() ==> pseudo_of(ar, props, k).below(
                normal_quantile(ar, #[trigger] ar.accumulated(props.take(i + 1))),
            ),
{
    let th = thresholds_of(ar, props);
    let y = pseudo_of(ar, props, k);
    let middle = ar.times(
        num(crate::arith::HALF),
        ar.plus(ar.accumulated(props.take(k)), ar.accumulated(props.take(k + 1))),
    );
    assert forall|i: int| 0 <= i < k implies normal_quantile(
        ar,
        #[trigger] ar.accumulated(props.take(i + 1)),
    ).below(y) by {
        assert(ar.accumulated(props.take(i + 1)).at_most(ar.accumulated(props.take(k))));
        assert(ar.accumulated(props.take(i + 1)).below(middle));
    }
    assert forall|i: int| k <= i < props.len() implies y.below(
        normal_quantile(ar, #[trigger] ar.accumulated(props.take(i + 1))),
    ) by {
        assert(ar.accumulated(props.take(k + 1)).at_most(ar.accumulated(props.take(i + 1))));
        assert(middle.below(ar.accumulated(props.take(i + 1))));
    }
    assert forall|i: int| 0 <= i < k implies (#[trigger] th[i]).below(y) by {
        assert(th[i] == normal_quantile(ar, ar.accumulated(props.take(i + 1))));
    }
    assert forall|i: int| k <= i < th.len() implies !(#[trigger] th[i]).below(y) by {
        assert(th[i] == normal_quantile(ar, ar.accumulated(props.take(i + 1))));
    }
}

/// The weights of the members of a category, zero for the others.
pub open spec fn weights_in(labels: Seq<usize>, weights: Seq<Double>, k: int) -> Seq<Double> {
    Seq::new(
        labels.len(),
        |i: int|
            if labels[i] == k {
                weights[i]
            } else {
                num(0)
            },
    )
}

proof fn lemma_weight_in<F: Fn(Op, Double, Double) -> Double>(
    ar: Arithmetic<F>,
    c: Numbers,
    labels: Seq<usize>,
    weights: Seq<Double>,
    k: int,
)
    requires
        exact(ar, c),
        all_numbers(c, weights),
        labels.len() == weights.len(),
    ensures
        crate::tgs::weight_in(ar, labels, weights, k) == ar.accumulated(
            weights_in(labels, weights, k),
        ),
        c(crate::tgs::weight_in(ar, labels, weights, k)),
    decreases labels.len(),
{
    closed(ar, c, num(0), num(0));
    if labels.len() > 0 {
        let (l, w) = (labels.drop_last(), weights.drop_last());
        assert forall|i: int| 0 <= i < w.len() implies c(#[trigger] w[i]) by {
            assert(c(weights[i]));
        }
        lemma_weight_in(ar, c, l, w, k);
        assert(weights_in(labels, weights, k).drop_last() =~= weights_in(l, w, k));
        assert(c(weights[weights.len() - 1]));
        let before = crate::tgs::weight_in(ar, l, w, k);
        closed(ar, c, before, num(0));
        closed(ar, c, before, weights.last());
    }
}

/// Truncated Gaussian simulation cuts a Gaussian field at the quantiles of the shares of
/// the categories: a cell has the category whose bounds, the quantiles of the shares of the
/// categories before it and up to it, the field lies between. The field is conditioned on
/// the quantiles of the middles of the shares. The shares are those given; without any,
/// that of a category is the part that its data have of all weights, one for each datum
/// where no weights are given.
pub proof fn categories_are_cut_at_the_quantiles_of_their_shares<const D: usize, F: Fn(Op, Double, Double) -> Double, G: Fn([Double; D]) -> Double>(
    ar: &Arithmetic<F>,
    c: Numbers,
    data: &CategoricalData<D>,
    model: &Covariance<D, G>,
    nodes: Seq<[Double; D]>,
    levels: Option<Seq<u8>>,
    cfg: &TgsConfig,
    v: Vec<Vec<usize>>,
)
    requires
        exact(*ar, c),
        tgs_outcome(ar, data, model, nodes, levels, cfg, Ok(v)),
        0 < data.labels().len(),
        ({
            let weights = if cfg.decluster_weights is Some {
                cfg.decluster_weights->0@
            } else {
                Seq::new(data.labels().len(), |i: int| num(ONE))
            };
            cfg.proportions@.len() == 0 ==> all_numbers(c, weights) && weights.len()
                == data.labels().len() && ar.accumulated(weights) != num(0)
                && (cfg.decluster_weights is None ==> ar.accumulated(weights) == Double::count(
                data.labels().len(),
            ))
        }),
    ensures
        exists|stage: Stage<D>, props: Seq<Double>, pseudo: Seq<Double>|
            #![trigger stage.is_set(*ar, data.places(), nodes), shares_of_run(ar, cfg, data, props), pseudo.len()]
            {
                &&& stage.is_set(*ar, data.places(), nodes)
                &&& shares_of_run(ar, cfg, data, props)
                &&& pseudo.len() == data.labels().len()
                &&& forall|i: int|
                    0 <= i < pseudo.len() ==> {
                        let k = data.labels()[i] as int;
                        #[trigger] pseudo[i] == normal_quantile(
                            *ar,
                            ar.times(
                                num(crate::arith::HALF),
                                ar.plus(
                                    ar.accumulated(props.take(k)),
                                    ar.accumulated(props.take(k + 1)),
                                ),
                            ),
                        )
                    }
                &&& v@.len() == cfg.n_realizations
                &&& forall|r: int|
                    0 <= r < v@.len() ==> cut_from(
                        &stage,
                        ar,
                        model,
                        levels,
                        pseudo,
                        props,
                        cfg,
                        r as nat,
                        (#[trigger] v@[r])@,
                    )
            },
{
    let props = cfg.proportions_for(*ar, data);
    let pseudo = pseudo_values(*ar, data.labels(), props);
    let labels = data.labels();
    let stage = choose|stage: Stage<D>| #[trigger]
        stage.is_set(*ar, data.places(), nodes) && crate::tgs::realized(
            &stage,
            ar,
            model,
            levels,
            pseudo,
            thresholds_of(*ar, props),
            cfg,
            Ok(v),
        );
    if cfg.proportions@.len() == 0 {
        let weights = if cfg.decluster_weights is Some {
            cfg.decluster_weights->0@
        } else {
            Seq::new(labels.len(), |i: int| num(ONE))
        };
        let total = ar.accumulated(weights);
        crate::exact::lemma_total_start(*ar, c, weights);
        crate::exact_kriging::lemma_total_closed(*ar, c, weights);
        if cfg.decluster_weights is None {
            assert(weights =~= crate::transform::unit_weights(labels.len()));
        }
        assert forall|k: int| 0 <= k < props.len() implies ar.times(#[trigger] props[k], total)
            == ar.accumulated(weights_in(labels, weights, k)) by {
            lemma_weight_in(*ar, c, labels, weights, k);
            closed(*ar, c, crate::tgs::weight_in(*ar, labels, weights, k), total);
        }
    }
    assert(shares_of_run(ar, cfg, data, props));
    assert(pseudo.len() == labels.len());
    assert forall|i: int| 0 <= i < pseudo.len() implies {
        let k = labels[i] as int;
        #[trigger] pseudo[i] == normal_quantile(
            *ar,
            ar.times(
                num(crate::arith::HALF),
                ar.plus(ar.accumulated(props.take(k)), ar.accumulated(props.take(k + 1))),
            ),
        )
    } by {
        assert(pseudo[i] == pseudo_of(*ar, props, labels[i] as int));
    }
    assert forall|r: int| 0 <= r < v@.len() implies cut_from(
        &stage,
        ar,
        model,
        levels,
        pseudo,
        props,
        cfg,
        r as nat,
        (#[trigger] v@[r])@,
    ) by {
        let seed = stream_seed(cfg.seed, r as nat);
        assert(is_cut_field(
            &stage,
            ar,
            model,
            levels,
            pseudo,
            thresholds_of(*ar, props),
            cfg.quotas(),
            seed,
            (v@[r])@,
        ));
        let out = v@[r]@;
        let th = thresholds_of(*ar, props);
        let field = choose|field: Seq<Double>| #[trigger]
            is_field(&stage, ar, model, levels, pseudo, cfg.quotas(), seed, field)
                && all_classified(field, th, out);
        assert forall|j: int| 0 <= j < out.len() implies {
            let k = #[trigger] out[j] as int;
            &&& 0 <= k < props.len()
            &&& k > 0 ==> normal_quantile(*ar, ar.accumulated(props.take(k))).below(field[j])
            &&& k + 1 < props.len() ==> !normal_quantile(
                *ar,
                ar.accumulated(props.take(k + 1)),
            ).below(field[j])
        } by {
            let k = out[j] as int;
            assert(is_category(field[j], th, out[j] as int));
            if k > 0 {
                assert(th[k - 1].below(field[j]));
            }
            if k + 1 < props.len() {
                assert(!th[k].below(field[j]));
            }
        }
    }
}

/// The shares of the categories in a run: those given, or the parts that the data of each
/// category have of all weights.
pub open spec fn shares_of_run<const D: usize, F: Fn(Op, Double, Double) -> Double>(
    ar: &Arithmetic<F>,
    cfg: &TgsConfig,
    data: &CategoricalData<D>,
    props: Seq<Double>,
) -> bool {
    if cfg.proportions@.len() > 0 {
        props == cfg.proportions@
    } else {
        let weights = if cfg.decluster_weights is Some {
            cfg.decluster_weights->0@
        } else {
            Seq::new(data.labels().len(), |i: int| num(ONE))
        };
        &&& props.len() == data.classes()
        &&& forall|k: int|
            0 <= k < props.len() ==> ar.times(#[trigger] props[k], ar.accumulated(weights))
                == ar.accumulated(weights_in(data.labels(), weights, k))
    }
}

/// `out` are the categories of a field of realization `r`: the field lies above the
/// quantile of the shares before the category, and not above that of the shares up to it.
pub open spec fn cut_from<const D: usize, F: Fn(Op, Double, Double) -> Double, G: Fn([Double; D]) -> Double>(
    stage: &Stage<D>,
    ar: &Arithmetic<F>,
    model: &Covariance<D, G>,
    levels: Option<Seq<u8>>,
    pseudo: Seq<Double>,
    props: Seq<Double>,
    cfg: &TgsConfig,
    r: nat,
    out: Seq<usize>,
) -> bool {
    exists|field: Seq<Double>|
        {
            &&& #[trigger] is_field(
                stage,
                ar,
                model,
                levels,
                pseudo,
                cfg.quotas(),
                stream_seed(cfg.seed, r),
                field,
            )
            &&& out.len() == field.len()
            &&& forall|j: int|
                0 <= j < out.len() ==> {
                    let k = #[trigger] out[j] as int;
                    &&& 0 <= k < props.len()
                    &&& k > 0 ==> normal_quantile(*ar, ar.accumulated(props.take(k))).below(
                        field[j],
                    )
                    &&& k + 1 < props.len() ==> !normal_quantile(
                        *ar,
                        ar.accumulated(props.take(k + 1)),
                    ).below(field[j])
                }
        }
}

} // verus!

//! Mean and variance of local distributions, over an arithmetic without rounding: they are
//! those of a mixture of the classes between the cutoffs.

use vstd::prelude::*;

use crate::algebra::{halves, lemma_minus_undoes, lemma_quotient_is, lemma_two_halves};
use crate::arith::{num, Arithmetic, Op, HALF, TWO};
use crate::ccdf::{class_moments, class_share, moments_before, moments_of, Classes, Ladder, THREE};
use crate::data::PointSet;
use crate::double::{Double, ONE};
use crate::error::GeostatError;
use crate::exact::{
    all_numbers, closed, distributes, exact, lemma_span_closed, span_sum, times_associates,
    times_cancels, Numbers,
};
use crate::ik::{CcdfEstimate, IkConfig};
use crate::tails::{power_moments_of, TailModel};

verus! {

/// Probabilities of the classes: the steps of the distribution, from zero to one.
pub open spec fn steps<F: Fn(Op, Double, Double) -> Double>(ar: Arithmetic<F>, ccdf: Seq<Double>) -> Seq<Double> {
    Seq::new(
        ccdf.len() + 1,
        |k: int|
            ar.minus(
                if k == ccdf.len() {
                    num(ONE)
                } else {
                    ccdf[k]
                },
                if k == 0 {
                    num(0)
                } else {
                    ccdf[k - 1]
                },
            ),
    )
}

/// `m` and `q` are mean and mean square of a variable that is uniform between two ends.
pub open spec fn uniform_between<F: Fn(Op, Double, Double) -> Double>(
    ar: Arithmetic<F>,
    lo: Double,
    hi: Double,
    m: Double,
    q: Double,
) -> bool {
    &&& ar.plus(m, m) == ar.plus(lo, hi)
    &&& ar.times(q, Double::count(3)) == ar.plus(
        ar.plus(ar.times(lo, lo), ar.times(lo, hi)),
        ar.times(hi, hi),
    )
}

/// `m` and `q` are mean and mean square of a variable between two ends whose distance from
/// the lower one, as a share of the whole, has the probability `t` to the power `w` of
/// being at most `t`: a mean share of `w / (w + 1)`, a mean squared one of `w / (w + 2)`.
pub open spec fn power_between<F: Fn(Op, Double, Double) -> Double>(
    ar: Arithmetic<F>,
    lo: Double,
    hi: Double,
    w: Double,
    m: Double,
    q: Double,
) -> bool {
    let d = ar.minus(hi, lo);
    let u = ar.minus(m, lo);
    let v = ar.minus(q, ar.plus(ar.times(lo, lo), ar.times(ar.times(Double::count(2), lo), u)));
    &&& ar.times(u, ar.plus(w, num(ONE))) == ar.times(d, w)
    &&& ar.times(v, ar.plus(w, Double::count(2))) == ar.times(ar.times(d, d), w)
}

/// `m` and `q` are mean and mean square within class `k` of the cutoffs: uniform between
/// two cutoffs, and as the tail models have it at the ends.
pub open spec fn within_class<F: Fn(Op, Double, Double) -> Double>(
    ar: Arithmetic<F>,
    cutoffs: Seq<Double>,
    lo: Double,
    hi: Double,
    lower: TailModel,
    upper: TailModel,
    k: int,
    m: Double,
    q: Double,
) -> bool {
    if k == 0 {
        match lower {
            TailModel::Linear => power_between(ar, lo, cutoffs[0], num(ONE), m, q),
            TailModel::Power(w) => power_between(ar, lo, cutoffs[0], w, m, q),
            _ => m == cutoffs[0] && q == ar.times(m, m),
        }
    } else if k == cutoffs.len() {
        match upper {
            TailModel::Linear => power_between(ar, cutoffs.last(), hi, num(ONE), m, q),
            TailModel::Power(w) => power_between(ar, cutoffs.last(), hi, w, m, q),
            _ => m == cutoffs.last() && q == ar.times(m, m),
        }
    } else {
        uniform_between(ar, cutoffs[k - 1], cutoffs[k], m, q)
    }
}

/// Two and three are what they are called, and can be divided by.
pub open spec fn small_counts<F: Fn(Op, Double, Double) -> Double>(ar: Arithmetic<F>, c: Numbers) -> bool {
    &&& halves(ar, c)
    &&& c(Double::count(2))
    &&& c(Double::count(3))
    &&& Double::count(3) != num(0)
    &&& ar.plus(num(ONE), num(ONE)) == Double::count(2)
    &&& ar.plus(Double::count(2), num(ONE)) == Double::count(3)
}

/// The exponent of a tail is a number, and can be divided by when one or two are added.
pub open spec fn tail_numeric<F: Fn(Op, Double, Double) -> Double>(ar: Arithmetic<F>, c: Numbers, model: TailModel) -> bool {
    match model {
        TailModel::Hyperbolic(_) => false,
        TailModel::Power(w) => c(w) && ar.plus(w, num(ONE)) != num(0) && ar.plus(w, Double::count(2))
            != num(0),
        _ => ar.plus(num(ONE), num(ONE)) != num(0) && ar.plus(num(ONE), Double::count(2)) != num(0),
    }
}

/// The doubles of two and three.
proof fn lemma_counts()
    ensures
        Double::count(2) == num(TWO),
        Double::count(3) == num(THREE),
{
    reveal_with_fuel(Double::scaled, 54);
}

proof fn lemma_power_moments<F: Fn(Op, Double, Double) -> Double>(
    ar: Arithmetic<F>,
    c: Numbers,
    lo: Double,
    hi: Double,
    w: Double,
    m: Double,
    q: Double,
)
    requires
        exact(ar, c),
        c(num(TWO)),
        c(lo),
        c(hi),
        c(w),
        c(m),
        c(q),
        ar.plus(w, num(ONE)) != num(0),
        ar.plus(w, num(TWO)) != num(0),
        power_between(ar, lo, hi, w, m, q),
    ensures
        power_moments_of(ar, lo, hi, w) == (m, q),
{
    lemma_counts();
    closed(ar, c, num(0), num(ONE));
    let (w1, w2) = (ar.plus(w, num(ONE)), ar.plus(w, num(TWO)));
    closed(ar, c, w, num(ONE));
    closed(ar, c, w, num(TWO));
    let d = ar.minus(hi, lo);
    closed(ar, c, hi, lo);
    let u = ar.minus(m, lo);
    closed(ar, c, m, lo);
    closed(ar, c, w, w1);
    closed(ar, c, w, w2);
    let (m1, m2) = (ar.over(w, w1), ar.over(w, w2));
    // The mean.
    closed(ar, c, d, m1);
    times_associates(ar, c, d, m1, w1);
    times_cancels(ar, c, u, ar.times(d, m1), w1);
    lemma_minus_undoes(ar, c, m, lo);
    // The mean square.
    closed(ar, c, lo, lo);
    closed(ar, c, num(TWO), lo);
    let two_lo = ar.times(num(TWO), lo);
    closed(ar, c, two_lo, u);
    let known = ar.plus(ar.times(lo, lo), ar.times(two_lo, u));
    closed(ar, c, ar.times(lo, lo), ar.times(two_lo, u));
    let v = ar.minus(q, known);
    closed(ar, c, q, known);
    closed(ar, c, d, d);
    let dd = ar.times(d, d);
    closed(ar, c, dd, m2);
    times_associates(ar, c, dd, m2, w2);
    times_cancels(ar, c, v, ar.times(dd, m2), w2);
    lemma_minus_undoes(ar, c, q, known);
    closed(ar, c, known, v);
    times_associates(ar, c, two_lo, d, m1);
}

proof fn lemma_class_moments<F: Fn(Op, Double, Double) -> Double>(
    ar: Arithmetic<F>,
    c: Numbers,
    cl: Classes,
    k: int,
    m: Double,
    q: Double,
)
    requires
        exact(ar, c),
        small_counts(ar, c),
        cl.cutoffs@.len() > 0,
        all_numbers(c, cl.cutoffs@),
        c(cl.tail_min),
        c(cl.tail_max),
        tail_numeric(ar, c, cl.lower_tail),
        tail_numeric(ar, c, cl.upper_tail),
        c(m),
        c(q),
        0 <= k <= cl.cutoffs@.len(),
        within_class(
            ar,
            cl.cutoffs@,
            cl.tail_min,
            cl.tail_max,
            cl.lower_tail,
            cl.upper_tail,
            k,
            m,
            q,
        ),
    ensures
        class_moments(ar, cl, k) == (m, q),
{
    let cs = cl.cutoffs@;
    let n = cs.len() as int;
    lemma_counts();
    closed(ar, c, num(0), num(ONE));
    assert(c(cs[0]) && c(cs[n - 1]));
    if k == 0 {
        match cl.lower_tail {
            TailModel::Linear => {
                lemma_power_moments(ar, c, cl.tail_min, cs[0], num(ONE), m, q);
            },
            TailModel::Power(w) => {
                lemma_power_moments(ar, c, cl.tail_min, cs[0], w, m, q);
            },
            _ => {},
        }
    } else if k == n {
        match cl.upper_tail {
            TailModel::Linear => {
                lemma_power_moments(ar, c, cs[n - 1], cl.tail_max, num(ONE), m, q);
            },
            TailModel::Power(w) => {
                lemma_power_moments(ar, c, cs[n - 1], cl.tail_max, w, m, q);
            },
            _ => {},
        }
    } else {
        let (a, b) = (cs[k - 1], cs[k]);
        assert(c(a) && c(b));
        closed(ar, c, a, a);
        closed(ar, c, a, b);
        closed(ar, c, b, b);
        closed(ar, c, ar.times(a, a), ar.times(a, b));
        closed(ar, c, ar.plus(ar.times(a, a), ar.times(a, b)), ar.times(b, b));
        lemma_two_halves(ar, c, m);
        distributes(ar, c, num(HALF), m, m);
        lemma_quotient_is(
            ar,
            c,
            q,
            ar.plus(ar.plus(ar.times(a, a), ar.times(a, b)), ar.times(b, b)),
            num(THREE),
        );
    }
}

proof fn lemma_moments_so_far<F: Fn(Op, Double, Double) -> Double>(
    ar: Arithmetic<F>,
    c: Numbers,
    ccdf: Seq<Double>,
    cl: Classes,
    ms: Seq<Double>,
    qs: Seq<Double>,
    n: int,
)
    requires
        exact(ar, c),
        small_counts(ar, c),
        ccdf.len() == cl.cutoffs@.len(),
        ccdf.len() > 0,
        all_numbers(c, cl.cutoffs@),
        c(cl.tail_min),
        c(cl.tail_max),
        tail_numeric(ar, c, cl.lower_tail),
        tail_numeric(ar, c, cl.upper_tail),
        ms.len() == ccdf.len() + 1,
        qs.len() == ccdf.len() + 1,
        all_numbers(c, ms),
        all_numbers(c, qs),
        all_numbers(c, steps(ar, ccdf)),
        forall|k: int|
            0 <= k <= ccdf.len() ==> (#[trigger] steps(ar, ccdf)[k]).positive() || steps(
                ar,
                ccdf,
            )[k] == num(0),
        forall|k: int|
            0 <= k <= ccdf.len() ==> within_class(
                ar,
                cl.cutoffs@,
                cl.tail_min,
                cl.tail_max,
                cl.lower_tail,
                cl.upper_tail,
                k,
                #[trigger] ms[k],
                qs[k],
            ),
        0 <= n <= ccdf.len() + 1,
    ensures
        moments_before(ar, ccdf, cl, n).0 == span_sum(ar, ms, steps(ar, ccdf), 0, n),
        moments_before(ar, ccdf, cl, n).1 == span_sum(ar, qs, steps(ar, ccdf), 0, n),
    decreases n,
{
    if n > 0 {
        let k = n - 1;
        lemma_moments_so_far(ar, c, ccdf, cl, ms, qs, k);
        let ps = steps(ar, ccdf);
        let p = ps[k];
        assert(c(p) && c(ms[k]) && c(qs[k]));
        lemma_class_moments(ar, c, cl, k, ms[k], qs[k]);
        closed(ar, c, p, ms[k]);
        closed(ar, c, p, qs[k]);
        lemma_span_closed(ar, c, ms, ps, 0, k);
        lemma_span_closed(ar, c, qs, ps, 0, k);
        closed(ar, c, span_sum(ar, ms, ps, 0, k), num(0));
        closed(ar, c, span_sum(ar, qs, ps, 0, k), num(0));
        assert(class_share(ar, ccdf, k) == p);
        closed(ar, c, ms[k], num(0));
        closed(ar, c, qs[k], num(0));
    }
}

/// Equal doubles among numbers are the same.
pub(crate) proof fn lemma_equal_numbers<F: Fn(Op, Double, Double) -> Double>(
    ar: Arithmetic<F>,
    c: Numbers,
    a: Double,
    b: Double,
)
    requires
        exact(ar, c),
        c(a),
        c(b),
        a.equals(b),
    ensures
        a == b,
{
    closed(ar, c, a, b);
    closed(ar, c, b, a);
}

/// The end of a tail: the one given, or the extreme among the values.
pub open spec fn ends_tail(given: Option<Double>, values: Seq<Double>, z: Double, lower: bool) -> bool {
    match given {
        Some(g) => z == g,
        None => values.contains(z) && forall|i: int|
            0 <= i < values.len() ==> if lower {
                z.at_most(#[trigger] values[i])
            } else {
                values[i].at_most(z)
            },
    }
}

/// The mean and the variance of an estimate are those of its distribution: with the
/// probabilities that the distribution gives the classes, and the mean and the mean square
/// of every class, the mean is the mean of the means, and the variance and the squared mean
/// make up the mean of the mean squares.
pub proof fn estimates_are_mean_and_variance<const D: usize, F: Fn(Op, Double, Double) -> Double, G: Fn([Double; D]) -> Double>(
    cfg: &IkConfig<D, G>,
    ar: Arithmetic<F>,
    c: Numbers,
    data: &PointSet<D>,
    targets: Seq<[Double; D]>,
    v: Vec<CcdfEstimate>,
    t: int,
    lo: Double,
    hi: Double,
    ms: Seq<Double>,
    qs: Seq<Double>,
)
    requires
        exact(ar, c),
        small_counts(ar, c),
        cfg.outcome(ar, data, targets, Ok(v)),
        0 <= t < targets.len(),
        all_numbers(c, cfg.cutoffs@),
        all_numbers(c, data.attributes()),
        data.attributes().len() > 0,
        c(lo),
        c(hi),
        ends_tail(cfg.tail_min, data.attributes(), lo, true),
        ends_tail(cfg.tail_max, data.attributes(), hi, false),
        tail_numeric(ar, c, cfg.lower_tail),
        tail_numeric(ar, c, cfg.upper_tail),
        v@[t].ccdf@.len() == cfg.cutoffs@.len(),
        all_numbers(c, steps(ar, v@[t].ccdf@)),
        forall|k: int|
            0 <= k <= cfg.cutoffs@.len() ==> (#[trigger] steps(ar, v@[t].ccdf@)[k]).positive()
                || steps(ar, v@[t].ccdf@)[k] == num(0),
        ms.len() == cfg.cutoffs@.len() + 1,
        qs.len() == cfg.cutoffs@.len() + 1,
        all_numbers(c, ms),
        all_numbers(c, qs),
        forall|k: int|
            0 <= k <= cfg.cutoffs@.len() ==> within_class(
                ar,
                cfg.cutoffs@,
                lo,
                hi,
                cfg.lower_tail,
                cfg.upper_tail,
                k,
                #[trigger] ms[k],
                qs[k],
            ),
        ({
            let n = cfg.cutoffs@.len() + 1;
            let ps = steps(ar, v@[t].ccdf@);
            let mean = span_sum(ar, ms, ps, 0, n as int);
            num(0).at_most(ar.minus(span_sum(ar, qs, ps, 0, n as int), ar.times(mean, mean)))
        }),
    ensures
        ({
            let n = cfg.cutoffs@.len() + 1;
            let ps = steps(ar, v@[t].ccdf@);
            &&& v@[t].e_type == span_sum(ar, ms, ps, 0, n as int)
            &&& ar.plus(v@[t].cond_var, ar.times(v@[t].e_type, v@[t].e_type)) == span_sum(
                ar,
                qs,
                ps,
                0,
                n as int,
            )
        }),
{
    let r: Result<Vec<CcdfEstimate>, GeostatError> = Ok(v);
    let values = data.attributes();
    let ladder = choose|ladder: Result<Ladder, GeostatError>| #[trigger]
        cfg.ladder_for(ar, values, ladder) && match ladder {
            Err(e) => r == Err::<Vec<CcdfEstimate>, GeostatError>(e),
            Ok(l) => match r {
                Ok(v) => v@.len() == targets.len() && forall|t: int|
                    0 <= t < v@.len() ==> cfg.kriged(ar, data, &l, targets[t], Ok(#[trigger] v@[t])),
                Err(e) => exists|t: int|
                    0 <= t < targets.len() && cfg.kriged(
                        ar,
                        data,
                        &l,
                        #[trigger] targets[t],
                        Err(e),
                    ),
            },
        };
    let l = ladder->Ok_0;
    let est = v@[t];
    assert(cfg.kriged(ar, data, &l, targets[t], Ok(v@[t])));
    let nb = choose|nb: Seq<usize>| #[trigger]
        cfg.conditions(ar, data.places(), targets[t], nb) && cfg.estimated(
            ar,
            data,
            &l,
            targets[t],
            nb,
            Ok(est),
        );
    let cl = cfg.classes_with(&l);
    let ccdf = est.ccdf@;
    assert((est.e_type, est.cond_var) == moments_of(ar, ccdf, cl));
    // The bounds.
    let (a, b) = choose|a: Double, b: Double| #[trigger]
        crate::ccdf::are_bounds(values, cfg.tail_min, cfg.tail_max, a, b) && l.tail_min == a
            && l.tail_max == b;
    lemma_ends(ar, c, cfg.tail_min, values, lo, a, true);
    lemma_ends(ar, c, cfg.tail_max, values, hi, b, false);
    let n = ccdf.len() as int + 1;
    let ps = steps(ar, ccdf);
    lemma_moments_so_far(ar, c, ccdf, cl, ms, qs, n);
    let (mean, square) = (span_sum(ar, ms, ps, 0, n), span_sum(ar, qs, ps, 0, n));
    lemma_span_closed(ar, c, ms, ps, 0, n);
    lemma_span_closed(ar, c, qs, ps, 0, n);
    closed(ar, c, mean, mean);
    let d = ar.minus(square, ar.times(mean, mean));
    closed(ar, c, square, ar.times(mean, mean));
    closed(ar, c, d, num(0));
    assert(d.max(num(0)) == d);
}

proof fn lemma_ends<F: Fn(Op, Double, Double) -> Double>(
    ar: Arithmetic<F>,
    c: Numbers,
    given: Option<Double>,
    values: Seq<Double>,
    z: Double,
    a: Double,
    lower: bool,
)
    requires
        exact(ar, c),
        all_numbers(c, values),
        values.len() > 0,
        c(z),
        ends_tail(given, values, z, lower),
        if lower {
            crate::ccdf::is_lower_bound(given, values, a)
        } else {
            crate::ccdf::is_upper_bound(given, values, a)
        },
    ensures
        z == a,
{
    if given is None {
        let i = choose|i: int| 0 <= i < values.len() && values[i] == z;
        if lower {
            let j = choose|j: int| 0 <= j < values.len() && #[trigger] values[j] == a;
            assert(z.at_most(values[j]) && a.at_most(values[i]));
            assert(c(values[j]));
        } else {
            let j = choose|j: int| 0 <= j < values.len() && #[trigger] values[j] == a;
            assert(values[j].at_most(z) && values[i].at_most(a));
            assert(c(values[j]));
        }
        lemma_equal_numbers(ar, c, z, a);
    }
}

} // verus!

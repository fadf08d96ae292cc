//! Means of local distributions over an arithmetic without rounding: they lie between the
//! bounds of the tails.

use vstd::arithmetic::power2::{lemma_pow2_adds, pow2};
use vstd::prelude::*;

use crate::arith::{num, Arithmetic, Op, HALF};
use crate::ccdf::{
    class_ceiling, class_floor, class_moments, class_share, in_unit, moments_before, moments_of,
    rises, Classes,
};
use crate::double::{Double, HIDDEN, ONE};
use crate::tails::{power_moments_of, upper_moments_of, TailModel};
use crate::value::{
    adds, counts_have_their_value, divides, multiplies, subtracts, units, unity,
    unity_is_positive, values_order_as_doubles,
};

verus! {

/// The mean of a power-law class does not round.
pub open spec fn power_exact<F: Fn(Op, Double, Double) -> Double>(
    ar: Arithmetic<F>,
    a: Double,
    b: Double,
    w: Double,
) -> bool {
    let part = ar.over(w, ar.plus(w, num(ONE)));
    &&& w.positive()
    &&& adds(ar, w, num(ONE))
    &&& divides(ar, w, ar.plus(w, num(ONE)))
    &&& subtracts(ar, b, a)
    &&& multiplies(ar, ar.minus(b, a), part)
    &&& adds(ar, a, ar.times(ar.minus(b, a), part))
}

/// The mean of class `k` does not round; that of a hyperbolic tail, which is made of
/// powers and logarithms, is finite and lies in its class.
pub open spec fn class_exact<F: Fn(Op, Double, Double) -> Double>(
    ar: Arithmetic<F>,
    cl: Classes,
    k: int,
) -> bool {
    let nc = cl.cutoffs@.len();
    if k == 0 {
        match cl.lower_tail {
            TailModel::Linear => power_exact(ar, cl.tail_min, cl.cutoffs@[0], num(ONE)),
            TailModel::Power(w) => power_exact(ar, cl.tail_min, cl.cutoffs@[0], w),
            _ => true,
        }
    } else if k == nc {
        let zk = cl.cutoffs@[nc - 1];
        match cl.upper_tail {
            TailModel::Clamped => true,
            TailModel::Linear => power_exact(ar, zk, cl.tail_max, num(ONE)),
            TailModel::Power(w) => power_exact(ar, zk, cl.tail_max, w),
            TailModel::Hyperbolic(w) => {
                let m = upper_moments_of(ar, cl.upper_tail, zk, cl.tail_max).0;
                m.finite() && zk.at_most(m) && m.at_most(cl.tail_max)
            },
        }
    } else {
        let (a, b) = (cl.cutoffs@[k - 1], cl.cutoffs@[k]);
        adds(ar, a, b) && multiplies(ar, num(HALF), ar.plus(a, b))
    }
}

/// What class `k` adds to the mean does not round.
pub open spec fn mixes_exactly<F: Fn(Op, Double, Double) -> Double>(
    ar: Arithmetic<F>,
    ccdf: Seq<Double>,
    cl: Classes,
    k: int,
) -> bool {
    let p = class_share(ar, ccdf, k);
    let m = class_moments(ar, cl, k).0;
    &&& subtracts(ar, class_ceiling(ccdf, k), class_floor(ccdf, k))
    &&& p.positive() ==> class_exact(ar, cl, k) && multiplies(ar, p, m) && adds(
        ar,
        moments_before(ar, ccdf, cl, k).0,
        ar.times(p, m),
    )
}

/// The cutoffs ascend between the bounds of the tails, all of them finite.
pub open spec fn laid_out(cl: Classes) -> bool {
    let cs = cl.cutoffs@;
    &&& cs.len() > 0
    &&& rises(cs)
    &&& cl.tail_min.finite()
    &&& cl.tail_max.finite()
    &&& forall|k: int| 0 <= k < cs.len() ==> (#[trigger] cs[k]).finite()
    &&& cl.tail_min.at_most(cs[0])
    &&& cs[cs.len() - 1].at_most(cl.tail_max)
}

/// The values are those of a distribution: between zero and one, and they never decrease.
pub open spec fn is_distribution(ccdf: Seq<Double>) -> bool {
    &&& forall|k: int| 0 <= k < ccdf.len() ==> in_unit(#[trigger] ccdf[k])
    &&& forall|j: int, k: int|
        0 <= j < k < ccdf.len() ==> (#[trigger] ccdf[j]).at_most(#[trigger] ccdf[k])
}

/// The value of one half.
pub(crate) proof fn lemma_half()
    ensures
        2 * units(num(HALF)) == unity(),
        num(HALF).finite(),
{
    vstd::arithmetic::power2::lemma2_to64_rest();
    lemma_pow2_adds(53, 1021);
    let h = num(HALF);
    assert(h.exponent() == 1022 && h.mantissa() == HIDDEN);
    assert((h.scale() - 1) as nat == 1021);
    let (m, p) = (h.mantissa(), pow2(1021));
    assert(m * p == HIDDEN * p) by (nonlinear_arith)
        requires
            m == HIDDEN,
    ;
    assert(2 * (HIDDEN * pow2(1021)) == unity()) by (nonlinear_arith)
        requires
            unity() == pow2(53) * pow2(1021),
            pow2(53) == 2 * HIDDEN,
    ;
}

/// The mean of a power-law class lies in the class.
proof fn lemma_power_between<F: Fn(Op, Double, Double) -> Double>(
    ar: Arithmetic<F>,
    a: Double,
    b: Double,
    w: Double,
)
    requires
        power_exact(ar, a, b, w),
        units(a) <= units(b),
    ensures
        power_moments_of(ar, a, b, w).0.finite(),
        units(a) <= units(power_moments_of(ar, a, b, w).0) <= units(b),
{
    let u = unity();
    unity_is_positive();
    counts_have_their_value(1);
    values_order_as_doubles(num(0), w);
    let part = ar.over(w, ar.plus(w, num(ONE)));
    let (wu, pu, d) = (units(w), units(part), units(b) - units(a));
    assert(wu > 0);
    assert(0 <= pu <= u) by (nonlinear_arith)
        requires
            pu * (wu + u) == wu * u,
            wu > 0,
            u > 0,
    ;
    let t = units(ar.times(ar.minus(b, a), part));
    assert(0 <= t <= d) by (nonlinear_arith)
        requires
            t * u == d * pu,
            0 <= pu <= u,
            d >= 0,
            u > 0,
    ;
}

proof fn lemma_rising(cl: Classes, j: int, k: int)
    requires
        laid_out(cl),
        0 <= j <= k < cl.cutoffs@.len(),
    ensures
        units(cl.tail_min) <= units(cl.cutoffs@[j]) <= units(cl.cutoffs@[k]) <= units(cl.tail_max),
{
    let cs = cl.cutoffs@;
    let n = cs.len() - 1;
    assert(cs[j].finite() && cs[k].finite() && cs[0].finite() && cs[n].finite());
    values_order_as_doubles(cl.tail_min, cs[0]);
    values_order_as_doubles(cs[n], cl.tail_max);
    lemma_units_rise(cl, 0, j);
    lemma_units_rise(cl, j, k);
    lemma_units_rise(cl, k, n);
}

proof fn lemma_units_rise(cl: Classes, j: int, k: int)
    requires
        laid_out(cl),
        0 <= j <= k < cl.cutoffs@.len(),
    ensures
        units(cl.cutoffs@[j]) <= units(cl.cutoffs@[k]),
    decreases k - j,
{
    let cs = cl.cutoffs@;
    if j < k {
        lemma_units_rise(cl, j, k - 1);
        assert(cs[k - 1].finite() && cs[k].finite());
        values_order_as_doubles(cs[k - 1], cs[k]);
    }
}

/// The mean of a class lies between the bounds of the tails.
proof fn lemma_class_between<F: Fn(Op, Double, Double) -> Double>(
    ar: Arithmetic<F>,
    cl: Classes,
    k: int,
)
    requires
        laid_out(cl),
        class_exact(ar, cl, k),
        0 <= k <= cl.cutoffs@.len(),
    ensures
        class_moments(ar, cl, k).0.finite(),
        units(cl.tail_min) <= units(class_moments(ar, cl, k).0) <= units(cl.tail_max),
{
    let cs = cl.cutoffs@;
    let nc = cs.len() as int;
    if k == 0 {
        lemma_rising(cl, 0, 0);
        assert(cs[0].finite());
        match cl.lower_tail {
            TailModel::Linear => {
                lemma_power_between(ar, cl.tail_min, cs[0], num(ONE));
            },
            TailModel::Power(w) => {
                lemma_power_between(ar, cl.tail_min, cs[0], w);
            },
            _ => {},
        }
    } else if k == nc {
        let zk = cs[nc - 1];
        lemma_rising(cl, nc - 1, nc - 1);
        assert(zk.finite());
        match cl.upper_tail {
            TailModel::Clamped => {},
            TailModel::Linear => {
                lemma_power_between(ar, zk, cl.tail_max, num(ONE));
            },
            TailModel::Power(w) => {
                lemma_power_between(ar, zk, cl.tail_max, w);
            },
            TailModel::Hyperbolic(w) => {
                let m = upper_moments_of(ar, cl.upper_tail, zk, cl.tail_max).0;
                values_order_as_doubles(zk, m);
                values_order_as_doubles(m, cl.tail_max);
            },
        }
    } else {
        let (a, b) = (cs[k - 1], cs[k]);
        lemma_rising(cl, k - 1, k);
        lemma_half();
        unity_is_positive();
        let (h, s, m, u) = (
            units(num(HALF)),
            units(a) + units(b),
            units(ar.times(num(HALF), ar.plus(a, b))),
            unity(),
        );
        assert(2 * m == s) by (nonlinear_arith)
            requires
                m * u == h * s,
                2 * h == u,
                u > 0,
        ;
    }
}

/// Value of the distribution that the first `n` classes make up.
spec fn reached(ccdf: Seq<Double>, n: int) -> int {
    if n <= 0 {
        0
    } else {
        units(class_ceiling(ccdf, n - 1))
    }
}

/// The mean over the first classes lies between their part of the bounds.
proof fn lemma_mean_so_far<F: Fn(Op, Double, Double) -> Double>(
    ar: Arithmetic<F>,
    ccdf: Seq<Double>,
    cl: Classes,
    n: int,
)
    requires
        laid_out(cl),
        is_distribution(ccdf),
        ccdf.len() == cl.cutoffs@.len(),
        forall|k: int| 0 <= k <= ccdf.len() ==> #[trigger] mixes_exactly(ar, ccdf, cl, k),
        0 <= n <= ccdf.len() + 1,
    ensures
        moments_before(ar, ccdf, cl, n).0.finite(),
        units(cl.tail_min) * reached(ccdf, n) <= units(moments_before(ar, ccdf, cl, n).0) * unity()
            <= units(cl.tail_max) * reached(ccdf, n),
    decreases n,
{
    values_order_as_doubles(num(0), num(0));
    let (lo, hi, u) = (units(cl.tail_min), units(cl.tail_max), unity());
    if n == 0 {
        assert(lo * 0 == 0 && hi * 0 == 0 && 0 * u == 0) by (nonlinear_arith);
    } else {
        let k = n - 1;
        lemma_mean_so_far(ar, ccdf, cl, k);
        assert(mixes_exactly(ar, ccdf, cl, k));
        let (top, floor) = (class_ceiling(ccdf, k), class_floor(ccdf, k));
        let d = ar.minus(top, floor);
        let (f, t) = (reached(ccdf, k), reached(ccdf, n));
        assert(f == units(floor));
        assert(floor.at_most(top)) by {
            if k == 0 {
                if k < ccdf.len() {
                    assert(in_unit(ccdf[0]));
                }
            } else if k < ccdf.len() {
                assert(ccdf[k - 1].at_most(ccdf[k]));
            } else {
                assert(in_unit(ccdf[k - 1]));
            }
        }
        values_order_as_doubles(floor, top);
        values_order_as_doubles(num(0), d);
        let before = units(moments_before(ar, ccdf, cl, k).0);
        let p = class_share(ar, ccdf, k);
        if p.positive() {
            assert(p == d);
            lemma_class_between(ar, cl, k);
            let m = class_moments(ar, cl, k).0;
            let (pu, mu, add) = (units(p), units(m), units(ar.times(p, m)));
            assert(lo * t <= (before + add) * u <= hi * t) by (nonlinear_arith)
                requires
                    lo * f <= before * u <= hi * f,
                    add * u == pu * mu,
                    pu == t - f,
                    pu >= 0,
                    lo <= mu <= hi,
            ;
        } else {
            assert(t == f);
        }
    }
}

/// The mean of a local distribution lies between the bounds of its tails, where nothing
/// rounds.
pub proof fn mean_stays_in_bounds<F: Fn(Op, Double, Double) -> Double>(
    ar: Arithmetic<F>,
    ccdf: Seq<Double>,
    cl: Classes,
)
    requires
        laid_out(cl),
        is_distribution(ccdf),
        ccdf.len() == cl.cutoffs@.len(),
        forall|k: int| 0 <= k <= ccdf.len() ==> #[trigger] mixes_exactly(ar, ccdf, cl, k),
    ensures
        cl.tail_min.at_most(moments_of(ar, ccdf, cl).0),
        moments_of(ar, ccdf, cl).0.at_most(cl.tail_max),
{
    let n = ccdf.len() as int + 1;
    lemma_mean_so_far(ar, ccdf, cl, n);
    counts_have_their_value(1);
    unity_is_positive();
    let m = moments_of(ar, ccdf, cl).0;
    let (lo, hi, mu, u) = (units(cl.tail_min), units(cl.tail_max), units(m), unity());
    assert(reached(ccdf, n) == u);
    assert(lo <= mu <= hi) by (nonlinear_arith)
        requires
            lo * u <= mu * u <= hi * u,
            u > 0,
    ;
    values_order_as_doubles(cl.tail_min, m);
    values_order_as_doubles(m, cl.tail_max);
}

} // verus!

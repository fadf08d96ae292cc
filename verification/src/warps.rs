//! Marginal transforms over an arithmetic without rounding: what a warped value stands for,
//! that data come back, that a fit standardizes its data, and what draws are summarized by.

use vstd::prelude::*;

use crate::algebra::{lemma_difference_is, lemma_minus_undoes};
use crate::arith::{num, Arithmetic, Op, HALF, LEAST, TWO};
use crate::double::{Double, INFINITE, ONE};
use crate::exact::{
    all_numbers, closed, distributes, exact, plus_associates, times_associates, times_cancels,
    Numbers,
};
use crate::exact_kriging::{
    counts, lemma_average_closed, lemma_total_added, lemma_total_closed, lemma_total_scaled,
};
use crate::marginal::{
    fits, greatest_of, least_of, loss, loss_sum, shift_for, BoxCox, FittedMarginal,
    MarginalTransport, SinhArcsinh, YeoJohnson, LN_NORM_CONST, NO_POWER, SHIFT_PART,
};
use crate::tgp::{summarizes, WarpedEstimate};
use crate::value::{rounded_is_near, units, unity, unity_is_positive};

verus! {

/// Powers and logarithms of `u` are those of a positive number: roots undo powers, the next
/// power is `u` times as much, and logarithms turn powers into multiples.
pub open spec fn has_powers<F: Fn(Op, Double, Double) -> Double>(
    ar: Arithmetic<F>,
    c: Numbers,
    u: Double,
    l: Double,
) -> bool {
    let less = ar.minus(l, num(ONE));
    &&& c(ar.pow(u, l))
    &&& num(0).below(ar.pow(u, l))
    &&& ar.pow(ar.pow(u, l), ar.over(num(ONE), l)) == u
    &&& ar.times(ar.pow(u, less), u) == ar.pow(u, l)
    &&& ar.exp(ar.times(less, ar.ln(u))) == ar.pow(u, less)
    &&& ar.exp(ar.ln(u)) == u
}

/// The sign of `x` can be changed.
pub open spec fn has_opposite<F: Fn(Op, Double, Double) -> Double>(
    ar: Arithmetic<F>,
    c: Numbers,
    x: Double,
) -> bool {
    c(x.neg()) && ar.plus(x, x.neg()) == num(0)
}

proof fn lemma_power_kept<F: Fn(Op, Double, Double) -> Double>(
    ar: Arithmetic<F>,
    c: Numbers,
    p: Double,
    l: Double,
)
    requires
        exact(ar, c),
        c(p),
        c(l),
        l != num(0),
    ensures
        ({
            let y = ar.over(ar.minus(p, num(ONE)), l);
            c(y) && ar.plus(ar.times(l, y), num(ONE)) == p
        }),
{
    let d = ar.minus(p, num(ONE));
    lemma_minus_undoes(ar, c, p, num(ONE));
    closed(ar, c, d, l);
    let y = ar.over(d, l);
    closed(ar, c, l, y);
    closed(ar, c, d, num(ONE));
}

proof fn lemma_largest(p: Double)
    requires
        num(0).below(p),
    ensures
        p.max(num(0)) == p,
{
}

/// Box-Cox: the power of the shifted value is one more than `lambda` times the warped
/// value, and the exponential of the warped value is the shifted value where there is no
/// power. The data value comes back, and the slope times the shifted value is its power.
pub proof fn box_cox_raises_the_shifted_value<F: Fn(Op, Double, Double) -> Double>(
    ar: Arithmetic<F>,
    c: Numbers,
    t: BoxCox,
    z: Double,
)
    requires
        exact(ar, c),
        c(z),
        c(t.shift),
        c(t.lambda),
        has_powers(ar, c, ar.plus(z, t.shift), t.lambda),
    ensures
        !t.lambda.abs().below(num(NO_POWER)) && t.lambda != num(0) ==> ar.plus(
            ar.times(t.lambda, t.warped(ar, z)),
            num(ONE),
        ) == ar.pow(ar.plus(z, t.shift), t.lambda),
        t.lambda.abs().below(num(NO_POWER)) ==> ar.exp(t.warped(ar, z)) == ar.plus(z, t.shift),
        t.lambda != num(0) || t.lambda.abs().below(num(NO_POWER)) ==> t.unwarped(
            ar,
            t.warped(ar, z),
        ) == z,
        ar.times(ar.exp(t.log_slope(ar, z)), ar.plus(z, t.shift)) == ar.pow(
            ar.plus(z, t.shift),
            t.lambda,
        ),
{
    let u = ar.plus(z, t.shift);
    let p = ar.pow(u, t.lambda);
    lemma_minus_undoes(ar, c, z, t.shift);
    if !t.lambda.abs().below(num(NO_POWER)) && t.lambda != num(0) {
        lemma_power_kept(ar, c, p, t.lambda);
        lemma_largest(p);
    }
}

/// Yeo-Johnson from zero on: what Box-Cox is with a shift of one.
pub proof fn yeo_johnson_of_positive_values<F: Fn(Op, Double, Double) -> Double>(
    ar: Arithmetic<F>,
    c: Numbers,
    t: YeoJohnson,
    z: Double,
)
    requires
        exact(ar, c),
        c(z),
        c(t.lambda),
        num(0).at_most(z),
        num(0).at_most(t.warped(ar, z)),
        has_powers(ar, c, ar.plus(z, num(ONE)), t.lambda),
        t.lambda != num(0) || t.lambda.abs().below(num(NO_POWER)),
    ensures
        !t.lambda.abs().below(num(NO_POWER)) ==> ar.plus(
            ar.times(t.lambda, t.warped(ar, z)),
            num(ONE),
        ) == ar.pow(ar.plus(z, num(ONE)), t.lambda),
        t.lambda.abs().below(num(NO_POWER)) ==> ar.exp(t.warped(ar, z)) == ar.plus(z, num(ONE)),
        t.unwarped(ar, t.warped(ar, z)) == z,
        ar.times(ar.exp(t.log_slope(ar, z)), ar.plus(z, num(ONE))) == ar.pow(
            ar.plus(z, num(ONE)),
            t.lambda,
        ),
{
    let u = ar.plus(z, num(ONE));
    let p = ar.pow(u, t.lambda);
    lemma_minus_undoes(ar, c, z, num(ONE));
    if !t.lambda.abs().below(num(NO_POWER)) {
        lemma_power_kept(ar, c, p, t.lambda);
        lemma_largest(p);
    }
}

/// Yeo-Johnson below zero: the opposite of what it is at the opposite value with the power
/// two less `lambda`. With the distance from one as base, its power and that multiple of the
/// warped value make up one.
pub proof fn yeo_johnson_of_negative_values<F: Fn(Op, Double, Double) -> Double>(
    ar: Arithmetic<F>,
    c: Numbers,
    t: YeoJohnson,
    z: Double,
    rest: Double,
)
    requires
        exact(ar, c),
        c(z),
        c(t.lambda),
        c(rest),
        rest != num(0),
        c(num(TWO)),
        num(TWO) == ar.plus(num(ONE), num(ONE)),
        ar.plus(rest, t.lambda) == num(TWO),
        !ar.minus(t.lambda, num(TWO)).abs().below(num(NO_POWER)),
        !num(0).at_most(z),
        !num(0).at_most(t.warped(ar, z)),
        has_opposite(ar, c, z),
        has_opposite(ar, c, t.warped(ar, z)),
        has_powers(ar, c, ar.minus(num(ONE), z), rest),
        has_opposite(ar, c, ar.minus(ar.pow(ar.minus(num(ONE), z), rest), num(ONE))),
    ensures
        ar.plus(ar.times(rest, t.warped(ar, z)), ar.pow(ar.minus(num(ONE), z), rest)) == num(ONE),
        t.unwarped(ar, t.warped(ar, z)) == z,
        ar.times(ar.exp(t.log_slope(ar, z)), ar.minus(num(ONE), z)) == ar.pow(
            ar.minus(num(ONE), z),
            rest,
        ),
{
    let one = num(ONE);
    let l = t.lambda;
    lemma_difference_is(ar, c, rest, num(TWO), l);
    // The base is the distance from one.
    let u = ar.plus(z.neg(), one);
    closed(ar, c, z.neg(), one);
    plus_associates(ar, c, z, z.neg(), one);
    closed(ar, c, z, u);
    closed(ar, c, one, num(0));
    lemma_difference_is(ar, c, u, one, z);
    let p = ar.pow(u, rest);
    let d = ar.minus(p, one);
    lemma_minus_undoes(ar, c, p, one);
    let y = ar.over(d.neg(), rest);
    closed(ar, c, d.neg(), rest);
    assert(t.warped(ar, z) == y);
    let m = ar.times(rest, y);
    closed(ar, c, rest, y);
    assert(m == d.neg());
    // m + p == 1, since p == d + 1 and m + d == 0.
    closed(ar, c, m, d);
    closed(ar, c, one, d);
    plus_associates(ar, c, m, d, one);
    closed(ar, c, d, one);
    assert(ar.plus(m, p) == one);
    // rest (-y) + 1 == p
    let o = ar.times(rest, y.neg());
    closed(ar, c, rest, y.neg());
    distributes(ar, c, rest, y, y.neg());
    assert(ar.plus(m, o) == num(0)) by {
        closed(ar, c, rest, num(0));
    }
    closed(ar, c, o, m);
    lemma_difference_is(ar, c, o, num(0), m);
    lemma_difference_is(ar, c, d, num(0), m);
    assert(o == d);
    lemma_largest(p);
    lemma_difference_is(ar, c, z, one, u);
    // The powers of the slope agree.
    assert(ar.minus(one, l) == ar.minus(rest, one)) by {
        let x = ar.minus(rest, one);
        lemma_minus_undoes(ar, c, rest, one);
        closed(ar, c, x, l);
        // x + l + 1 == rest + l == 1 + 1
        plus_associates(ar, c, x, l, one);
        plus_associates(ar, c, x, one, l);
        closed(ar, c, l, one);
        closed(ar, c, x, one);
        closed(ar, c, rest, l);
        lemma_minus_undoes(ar, c, ar.plus(x, l), one);
        lemma_minus_undoes(ar, c, one, one);
        lemma_difference_is(ar, c, x, one, l);
    }
}

/// Sinh-arcsinh: the inverse hyperbolic sine of the warped value and the skewness make up
/// the tail weight times that of the value in units of the scale from the location. The
/// data value comes back.
pub proof fn sinh_arcsinh_bends_the_standardized_value<F: Fn(Op, Double, Double) -> Double>(
    ar: Arithmetic<F>,
    c: Numbers,
    t: SinhArcsinh,
    z: Double,
    u: Double,
)
    requires
        exact(ar, c),
        c(z),
        c(u),
        c(t.epsilon) && c(t.delta) && c(t.loc) && c(t.scale),
        t.delta != num(0),
        t.scale != num(0),
        ar.plus(ar.times(u, t.scale), t.loc) == z,
        c(ar.asinh(u)),
        ar.sinh(ar.asinh(u)) == u,
        forall|x: Double| c(x) ==> ar.asinh(#[trigger] ar.sinh(x)) == x,
    ensures
        ar.plus(ar.asinh(t.warped(ar, z)), t.epsilon) == ar.times(t.delta, ar.asinh(u)),
        t.unwarped(ar, t.warped(ar, z)) == z,
{
    let w = ar.times(u, t.scale);
    closed(ar, c, u, t.scale);
    lemma_difference_is(ar, c, w, z, t.loc);
    crate::algebra::lemma_quotient_is(ar, c, u, w, t.scale);
    let m = ar.times(t.delta, ar.asinh(u));
    closed(ar, c, t.delta, ar.asinh(u));
    lemma_minus_undoes(ar, c, m, t.epsilon);
    let b = ar.minus(m, t.epsilon);
    closed(ar, c, b, t.epsilon);
    assert(t.warped(ar, z) == ar.sinh(b));
    assert(ar.times(ar.asinh(u), t.delta) == m);
    crate::algebra::lemma_quotient_is(ar, c, ar.asinh(u), m, t.delta);
}

/// Slope of sinh-arcsinh: times the scale and the root of one more than the squared
/// standardized value, it is the tail weight times the hyperbolic cosine of the inverse
/// hyperbolic sine of the warped value.
pub proof fn sinh_arcsinh_slope<F: Fn(Op, Double, Double) -> Double>(
    ar: Arithmetic<F>,
    c: Numbers,
    t: SinhArcsinh,
    z: Double,
    u: Double,
)
    requires
        exact(ar, c),
        c(z),
        c(u),
        c(t.epsilon) && c(t.delta) && c(t.loc) && c(t.scale),
        t.delta != num(0),
        t.scale != num(0),
        ar.plus(ar.times(u, t.scale), t.loc) == z,
        c(ar.asinh(u)),
        c(num(HALF)),
        forall|x: Double| c(x) ==> ar.asinh(#[trigger] ar.sinh(x)) == x,
        forall|x: Double, y: Double|
            c(x) && c(y) ==> ar.exp(#[trigger] ar.plus(x, y)) == ar.times(ar.exp(x), ar.exp(y)),
        forall|x: Double| c(x) && #[trigger] c(ar.ln(x)) ==> ar.exp(ar.ln(x)) == x && ar.exp(
            ar.times(num(HALF), ar.ln(x)),
        ) == ar.sqrt(x),
        c(ar.ln(t.delta)),
        c(ar.ln(t.scale)),
        c(ar.ln(ar.plus(num(ONE), ar.times(u, u)))),
        c(ar.cosh(ar.asinh(t.warped(ar, z)))),
        c(ar.ln(ar.cosh(ar.asinh(t.warped(ar, z))))),
    ensures
        ar.times(
            ar.times(ar.exp(t.log_slope(ar, z)), t.scale),
            ar.sqrt(ar.plus(num(ONE), ar.times(u, u))),
        ) == ar.times(ar.cosh(ar.asinh(t.warped(ar, z))), t.delta),
{
    let w = ar.times(u, t.scale);
    closed(ar, c, u, t.scale);
    lemma_difference_is(ar, c, w, z, t.loc);
    crate::algebra::lemma_quotient_is(ar, c, u, w, t.scale);
    let m = ar.times(t.delta, ar.asinh(u));
    closed(ar, c, t.delta, ar.asinh(u));
    lemma_minus_undoes(ar, c, m, t.epsilon);
    let b = ar.minus(m, t.epsilon);
    assert(t.warped(ar, z) == ar.sinh(b));
    let v = ar.plus(num(ONE), ar.times(u, u));
    closed(ar, c, u, u);
    closed(ar, c, num(ONE), ar.times(u, u));
    let (lc, ld, lv, ls) = (
        ar.ln(ar.cosh(b)),
        ar.ln(t.delta),
        ar.times(num(HALF), ar.ln(v)),
        ar.ln(t.scale),
    );
    closed(ar, c, num(HALF), ar.ln(v));
    closed(ar, c, lc, ld);
    let top = ar.plus(lc, ld);
    lemma_minus_undoes(ar, c, top, lv);
    let mid = ar.minus(top, lv);
    lemma_minus_undoes(ar, c, mid, ls);
    let g = ar.minus(mid, ls);
    assert(t.log_slope(ar, z) == g);
    closed(ar, c, g, ls);
    closed(ar, c, mid, lv);
    assert(ar.plus(g, ls) == mid);
    assert(ar.plus(mid, lv) == top);
    assert(ar.exp(top) == ar.times(ar.exp(lc), ar.exp(ld)));
    assert(ar.exp(mid) == ar.times(ar.exp(g), ar.exp(ls)));
    assert(ar.exp(top) == ar.times(ar.exp(mid), ar.exp(lv)));
}

/// A standardized latent value is the warped value in units of the standard deviation from
/// the mean, and maps back to the data value where the transform does.
pub proof fn latent_values_are_standard_scores<F: Fn(Op, Double, Double) -> Double, T: MarginalTransport<F>>(
    ar: Arithmetic<F>,
    c: Numbers,
    m: FittedMarginal<T>,
    z: Double,
)
    requires
        exact(ar, c),
        c(m.map().warped(ar, z)),
        c(m.mean()),
        c(m.deviation()),
        m.deviation() != num(0),
    ensures
        c(m.latent(ar, z)),
        ar.plus(ar.times(m.latent(ar, z), m.deviation()), m.mean()) == m.map().warped(ar, z),
        m.data(ar, m.latent(ar, z)) == m.map().unwarped(ar, m.map().warped(ar, z)),
{
    let w = m.map().warped(ar, z);
    let d = ar.minus(w, m.mean());
    lemma_minus_undoes(ar, c, w, m.mean());
    closed(ar, c, d, m.deviation());
    let y = ar.over(d, m.deviation());
    closed(ar, c, y, m.deviation());
    closed(ar, c, d, m.mean());
}

/// A fit standardizes its data: the standardized latent values add up to nothing, and their
/// squares to their number.
pub proof fn fitted_values_are_standardized<F: Fn(Op, Double, Double) -> Double, T: MarginalTransport<F>>(
    ar: Arithmetic<F>,
    c: Numbers,
    t: T,
    data: Seq<Double>,
    m: FittedMarginal<T>,
)
    requires
        exact(ar, c),
        counts(ar, c, data.len()),
        forall|i: int| 0 <= i < data.len() ==> c(t.warped(ar, #[trigger] data[i])),
        fits(ar, t, data, m),
        num(LEAST).below(m.deviation()),
        c(m.deviation()),
        m.deviation() != num(0),
        forall|a: Double| c(a) && c(ar.sqrt(a)) ==> ar.times(#[trigger] ar.sqrt(a), ar.sqrt(a)) == a,
    ensures
        ar.accumulated(Seq::new(data.len(), |i: int| m.latent(ar, data[i]))) == num(0),
        ar.accumulated(
            Seq::new(
                data.len(),
                |i: int| ar.times(m.latent(ar, data[i]), m.latent(ar, data[i])),
            ),
        ) == Double::count(data.len()),
{
    let n = data.len();
    let q = Double::count(n);
    let w = crate::marginal::warped_data(ar, t, data);
    let mean = ar.average_of(w);
    let s = m.deviation();
    assert forall|i: int| 0 <= i < n implies c(#[trigger] w[i]) by {
        assert(c(t.warped(ar, data[i])));
    }
    lemma_average_closed(ar, c, w);
    let ys = Seq::new(n, |i: int| m.latent(ar, data[i]));
    let y2 = Seq::new(n, |i: int| ar.times(m.latent(ar, data[i]), m.latent(ar, data[i])));
    let sy = Seq::new(n, |i: int| ar.times(s, ys[i]));
    let means = Seq::new(n, |i: int| ar.times(mean, num(ONE)));
    let ones = Seq::new(n, |i: int| num(ONE));
    let ds = crate::marginal::deviations(ar, w, mean);
    closed(ar, c, mean, num(ONE));
    assert forall|i: int| 0 <= i < n implies c(#[trigger] ys[i]) && c(sy[i]) && c(y2[i]) && c(ds[i])
        && w[i] == ar.plus(sy[i], means[i]) && ds[i] == ar.times(ar.times(s, s), y2[i]) by {
        assert(c(w[i]));
        latent_values_are_standard_scores(ar, c, m, data[i]);
        closed(ar, c, s, ys[i]);
        closed(ar, c, ys[i], ys[i]);
        let d = ar.minus(w[i], mean);
        lemma_minus_undoes(ar, c, w[i], mean);
        lemma_minus_undoes(ar, c, sy[i], mean);
        assert(ar.plus(sy[i], mean) == w[i]);
        assert(d == sy[i]);
        closed(ar, c, d, d);
        // (s y)(s y) == (s s)(y y)
        let y = ys[i];
        closed(ar, c, s, s);
        closed(ar, c, y, s);
        times_associates(ar, c, s, y, ar.times(s, y));
        times_associates(ar, c, y, s, y);
        closed(ar, c, y, sy[i]);
        closed(ar, c, s, ar.times(y, y));
        times_associates(ar, c, s, y, y);
        times_associates(ar, c, s, s, ar.times(y, y));
    }
    assert(all_numbers(c, ys));
    assert(all_numbers(c, sy)) by {
        assert forall|i: int| 0 <= i < n implies c(#[trigger] sy[i]) by {
            assert(c(ys[i]));
        }
    }
    assert(all_numbers(c, y2)) by {
        assert forall|i: int| 0 <= i < n implies c(#[trigger] y2[i]) by {
            assert(c(ys[i]));
        }
    }
    assert(all_numbers(c, ds)) by {
        assert forall|i: int| 0 <= i < n implies c(#[trigger] ds[i]) by {
            assert(c(ys[i]));
        }
    }
    // The values: n mean == s sum(y) + mean n.
    lemma_total_scaled(ar, c, s, ys, sy);
    lemma_total_closed(ar, c, ys);
    lemma_total_closed(ar, c, sy);
    closed(ar, c, num(0), num(ONE));
    lemma_total_scaled(ar, c, mean, ones, means);
    crate::exact::lemma_total_start(ar, c, ones);
    assert forall|i: int| 0 <= i < n implies #[trigger] w[i] == ar.plus(sy[i], means[i]) by {
        assert(c(ys[i]));
    }
    lemma_total_added(ar, c, sy, means, w);
    let a = ar.accumulated(sy);
    let b = ar.times(mean, q);
    closed(ar, c, mean, q);
    lemma_minus_undoes(ar, c, a, b);
    closed(ar, c, b, num(0));
    lemma_minus_undoes(ar, c, num(0), b);
    assert(a == num(0));
    closed(ar, c, s, num(0));
    closed(ar, c, s, ar.accumulated(ys));
    assert(ar.times(num(0), s) == num(0));
    times_cancels(ar, c, ar.accumulated(ys), num(0), s);
    // The squares: (s s) sum(y y) == s s n.
    lemma_average_closed(ar, c, ds);
    let var = ar.average_of(ds);
    assert(s == ar.sqrt(var).max(num(LEAST)));
    assert(s == ar.sqrt(var)) by {
        if s == num(LEAST) {
            assert(!num(LEAST).below(num(LEAST)));
        }
    }
    assert(var == ar.times(s, s));
    closed(ar, c, s, s);
    let ss = ar.times(s, s);
    assert forall|i: int| 0 <= i < n implies #[trigger] ds[i] == ar.times(ss, y2[i]) by {
        assert(c(ys[i]));
    }
    lemma_total_scaled(ar, c, ss, y2, ds);
    lemma_total_closed(ar, c, y2);
    crate::algebra::lemma_product_not_zero(ar, c, s, s);
    closed(ar, c, ss, ar.accumulated(y2));
    closed(ar, c, ss, q);
    times_cancels(ar, c, ar.accumulated(y2), q, ss);
}

/// Draws are summarized by their mean, their standard deviation and their quantiles: the
/// mean times the number of draws is their sum, the squared standard deviation times the
/// number the sum of the squared deviations, and a quantile is a draw with as many draws
/// before it, in increasing order, as the quantile's part of all but one.
pub proof fn draws_are_summarized<F: Fn(Op, Double, Double) -> Double>(
    ar: Arithmetic<F>,
    c: Numbers,
    draws: Seq<Double>,
    quantiles: Seq<Double>,
    w: WarpedEstimate,
    i: int,
)
    requires
        exact(ar, c),
        counts(ar, c, draws.len()),
        draws.len() < 0x7FFF_FFFF_FFFF_FFFF,
        all_numbers(c, draws),
        summarizes(ar, draws, quantiles, w),
        c(w.std),
        forall|a: Double| c(a) && c(ar.sqrt(a)) ==> ar.times(#[trigger] ar.sqrt(a), ar.sqrt(a)) == a,
        0 <= i < quantiles.len(),
        ({
            let x = ar.times(quantiles[i], ar.minus(Double::count(draws.len()), num(ONE)));
            x.finite() && 0 <= units(x) <= (draws.len() - 1) * unity()
        }),
    ensures
        ar.times(w.mean, Double::count(draws.len())) == ar.accumulated(draws),
        ar.times(ar.times(w.std, w.std), Double::count(draws.len())) == ar.accumulated(
            Seq::new(
                draws.len(),
                |j: int| ar.times(ar.minus(draws[j], w.mean), ar.minus(draws[j], w.mean)),
            ),
        ),
        w.quantiles@.len() == quantiles.len(),
        exists|order: Seq<usize>, k: int|
            #![trigger order[k]]
            {
                &&& order.len() == draws.len()
                &&& forall|a: int| 0 <= a < order.len() ==> (#[trigger] order[a]) < draws.len()
                &&& forall|a: int, b: int|
                    0 <= a < b < order.len() ==> #[trigger] order[a] != #[trigger] order[b]
                        && draws[order[a] as int].total() <= draws[order[b] as int].total()
                &&& 0 <= k < order.len()
                &&& w.quantiles@[i] == draws[order[k] as int]
                &&& -unity() <= 2 * (k * unity() - units(
                    ar.times(quantiles[i], ar.minus(Double::count(draws.len()), num(ONE))),
                )) <= unity()
            },
{
    let n = draws.len();
    lemma_average_closed(ar, c, draws);
    let ds = crate::marginal::deviations(ar, draws, w.mean);
    let sq = Seq::new(n, |j: int| ar.times(ar.minus(draws[j], w.mean), ar.minus(draws[j], w.mean)));
    assert(ds =~= sq);
    assert forall|j: int| 0 <= j < n implies c(#[trigger] ds[j]) by {
        assert(c(draws[j]));
        closed(ar, c, draws[j], w.mean);
        closed(ar, c, ar.minus(draws[j], w.mean), ar.minus(draws[j], w.mean));
    }
    lemma_average_closed(ar, c, ds);
    let order = choose|order: Seq<usize>| #[trigger]
        crate::order::stable_order(crate::transform::total_keys(draws), order) && w.quantiles@
            == Seq::new(
            quantiles.len(),
            |i: int|
                crate::transform::arranged(draws, order)[crate::tgp::quantile_index(
                    ar,
                    quantiles[i],
                    draws.len(),
                )],
        );
    let sorted = crate::transform::arranged(draws, order);
    let x = ar.times(quantiles[i], ar.minus(Double::count(n), num(ONE)));
    rounded_is_near(x);
    unity_is_positive();
    let r = x.rounded();
    assert(0 <= r <= n - 1) by (nonlinear_arith)
        requires
            -unity() <= 2 * (r * unity() - units(x)) <= unity(),
            0 <= units(x) <= (n - 1) * unity(),
            unity() > 0,
    ;
    assert(crate::tgp::quantile_index(ar, quantiles[i], n) == r);
    assert(w.quantiles@[i] == sorted[r]);
    assert(w.quantiles@[i] == draws[order[r] as int]);
}

/// The likelihood of standardized data: where the loss is finite, it and the sum of the log
/// slopes make up, for each datum, one half and the logarithm of the standard deviation,
/// less the logarithm of the normal density at zero.
pub proof fn loss_is_that_of_standardized_data<F: Fn(Op, Double, Double) -> Double, T: MarginalTransport<F>>(
    ar: Arithmetic<F>,
    c: Numbers,
    t: T,
    data: Seq<Double>,
    m: FittedMarginal<T>,
)
    requires
        exact(ar, c),
        counts(ar, c, data.len()),
        c(num(HALF)),
        c(num(LN_NORM_CONST)),
        forall|i: int| 0 <= i < data.len() ==> c(t.warped(ar, #[trigger] data[i])),
        forall|i: int| 0 <= i < data.len() ==> c(t.log_slope(ar, #[trigger] data[i])),
        fits(ar, t, data, m),
        num(LEAST).below(m.deviation()),
        c(m.deviation()),
        c(ar.ln(m.deviation())),
        m.deviation() != num(0),
        forall|a: Double| c(a) && c(ar.sqrt(a)) ==> ar.times(#[trigger] ar.sqrt(a), ar.sqrt(a)) == a,
        loss(ar, t, data) != num(INFINITE),
    ensures
        ({
            let q = Double::count(data.len());
            let slopes = Seq::new(data.len(), |i: int| t.log_slope(ar, data[i]));
            ar.plus(
                ar.plus(loss(ar, t, data), ar.accumulated(slopes)),
                ar.times(q, num(LN_NORM_CONST)),
            ) == ar.plus(ar.times(q, ar.ln(m.deviation())), ar.times(num(HALF), q))
        }),
{
    let n = data.len();
    let q = Double::count(n);
    let half = num(HALF);
    let k = num(LN_NORM_CONST);
    let sd = m.deviation();
    let mean = m.mean();
    let ln = ar.ln(sd);
    let b = ar.minus(k, ln);
    lemma_minus_undoes(ar, c, k, ln);
    let w = crate::marginal::warped_data(ar, t, data);
    assert forall|i: int| 0 <= i < n implies c(#[trigger] w[i]) by {
        assert(c(t.warped(ar, data[i])));
    }
    lemma_average_closed(ar, c, w);
    let slopes = Seq::new(n, |i: int| t.log_slope(ar, data[i]));
    let ys = Seq::new(n, |i: int| m.latent(ar, data[i]));
    let y2 = Seq::new(n, |i: int| ar.times(m.latent(ar, data[i]), m.latent(ar, data[i])));
    let hs = Seq::new(n, |i: int| ar.times(half, y2[i]));
    let ld = Seq::new(n, |i: int| ar.minus(b, ar.times(ar.times(half, ys[i]), ys[i])));
    let es = Seq::new(n, |i: int| ar.plus(ld[i], slopes[i]));
    let bs = Seq::new(n, |i: int| ar.times(b, num(ONE)));
    let ones = Seq::new(n, |i: int| num(ONE));
    closed(ar, c, num(0), num(ONE));
    closed(ar, c, b, num(ONE));
    assert forall|i: int| 0 <= i < n implies c(#[trigger] ys[i]) && c(y2[i]) && c(hs[i]) && c(ld[i])
        && c(es[i]) && c(slopes[i]) && bs[i] == ar.plus(ld[i], hs[i]) by {
        assert(c(w[i]));
        assert(c(t.log_slope(ar, data[i])));
        latent_values_are_standard_scores(ar, c, m, data[i]);
        let y = ys[i];
        closed(ar, c, y, y);
        closed(ar, c, half, y);
        closed(ar, c, half, y2[i]);
        times_associates(ar, c, half, y, y);
        closed(ar, c, b, hs[i]);
        closed(ar, c, ld[i], hs[i]);
        closed(ar, c, ld[i], slopes[i]);
    }
    assert(all_numbers(c, y2) && all_numbers(c, hs) && all_numbers(c, ld) && all_numbers(c, es)
        && all_numbers(c, slopes)) by {
        assert forall|i: int| 0 <= i < n implies c(#[trigger] y2[i]) by {
            assert(c(ys[i]));
        }
        assert forall|i: int| 0 <= i < n implies c(#[trigger] hs[i]) by {
            assert(c(ys[i]));
        }
        assert forall|i: int| 0 <= i < n implies c(#[trigger] ld[i]) by {
            assert(c(ys[i]));
        }
        assert forall|i: int| 0 <= i < n implies c(#[trigger] es[i]) by {
            assert(c(ys[i]));
        }
        assert forall|i: int| 0 <= i < n implies c(#[trigger] slopes[i]) by {
            assert(c(ys[i]));
        }
    }
    let var = crate::marginal::variance_of(ar, w);
    assert(sd == ar.sqrt(var).max(num(LEAST)));
    assert(sd == ar.sqrt(var)) by {
        if sd == num(LEAST) {
            assert(!num(LEAST).below(num(LEAST)));
        }
    }
    let a = loss(ar, t, data);
    assert(a == loss_sum(ar, t, data, mean, sd, n as int));
    lemma_loss(ar, c, t, data, mean, sd, es, n as int);
    assert(es.take(n as int) =~= es);
    // The sums.
    let (g, l) = (ar.accumulated(slopes), ar.accumulated(ld));
    lemma_total_closed(ar, c, slopes);
    lemma_total_closed(ar, c, ld);
    lemma_total_closed(ar, c, hs);
    lemma_total_closed(ar, c, y2);
    lemma_total_added(ar, c, ld, slopes, es);
    fitted_values_are_standardized(ar, c, t, data, m);
    lemma_total_scaled(ar, c, half, y2, hs);
    let h = ar.times(half, q);
    assert(ar.accumulated(hs) == h);
    assert forall|i: int| 0 <= i < n implies #[trigger] bs[i] == ar.plus(ld[i], hs[i]) by {
        assert(c(ys[i]));
    }
    lemma_total_added(ar, c, ld, hs, bs);
    lemma_total_scaled(ar, c, b, ones, bs);
    crate::exact::lemma_total_start(ar, c, ones);
    let nb = ar.times(b, q);
    assert(ar.plus(l, h) == nb);
    // (a + g) + l == 0, so (a + g) + n b == h.
    closed(ar, c, a, g);
    closed(ar, c, l, g);
    plus_associates(ar, c, a, g, l);
    let ag = ar.plus(a, g);
    assert(ar.plus(ag, l) == num(0));
    plus_associates(ar, c, ag, l, h);
    closed(ar, c, h, num(0));
    assert(ar.plus(ag, nb) == h);
    // n b + n ln == n k
    closed(ar, c, q, b);
    closed(ar, c, q, ln);
    closed(ar, c, q, k);
    closed(ar, c, b, ln);
    distributes(ar, c, q, b, ln);
    let nl = ar.times(q, ln);
    assert(ar.plus(nb, nl) == ar.times(q, k));
    plus_associates(ar, c, ag, nb, nl);
    closed(ar, c, h, nl);
}

proof fn lemma_loss<F: Fn(Op, Double, Double) -> Double, T: MarginalTransport<F>>(
    ar: Arithmetic<F>,
    c: Numbers,
    t: T,
    data: Seq<Double>,
    mean: Double,
    sd: Double,
    es: Seq<Double>,
    n: int,
)
    requires
        exact(ar, c),
        0 <= n <= data.len(),
        es.len() == data.len(),
        all_numbers(c, es),
        forall|i: int|
            0 <= i < data.len() ==> #[trigger] es[i] == ({
                let s = ar.over(ar.minus(t.warped(ar, data[i]), mean), sd);
                ar.plus(
                    ar.minus(
                        ar.minus(num(LN_NORM_CONST), ar.ln(sd)),
                        ar.times(ar.times(num(HALF), s), s),
                    ),
                    t.log_slope(ar, data[i]),
                )
            }),
    ensures
        c(loss_sum(ar, t, data, mean, sd, n)),
        ar.plus(loss_sum(ar, t, data, mean, sd, n), ar.accumulated(es.take(n))) == num(0),
    decreases n,
{
    closed(ar, c, num(0), num(0));
    if n > 0 {
        lemma_loss(ar, c, t, data, mean, sd, es, n - 1);
        let before = loss_sum(ar, t, data, mean, sd, n - 1);
        assert(es.take(n).drop_last() =~= es.take(n - 1));
        assert(es.take(n).last() == es[n - 1]);
        let sum = ar.accumulated(es.take(n - 1));
        assert forall|i: int| 0 <= i < es.take(n - 1).len() implies c(
            #[trigger] es.take(n - 1)[i],
        ) by {
            assert(c(es[i]));
        }
        lemma_total_closed(ar, c, es.take(n - 1));
        let e = es[n - 1];
        assert(c(e));
        lemma_minus_undoes(ar, c, before, e);
        let now = ar.minus(before, e);
        assert(loss_sum(ar, t, data, mean, sd, n) == now);
        closed(ar, c, sum, e);
        closed(ar, c, now, e);
        plus_associates(ar, c, now, e, sum);
        closed(ar, c, e, sum);
    } else {
        assert(es.take(0) =~= Seq::empty());
    }
}

/// The shift of a Box-Cox fit leaves positive data as they are, and otherwise makes the
/// least shifted value a thousandth of the range.
pub proof fn shifted_data_start_at_a_part_of_the_range<F: Fn(Op, Double, Double) -> Double>(
    ar: Arithmetic<F>,
    c: Numbers,
    data: Seq<Double>,
    least: Double,
    greatest: Double,
)
    requires
        exact(ar, c),
        data.len() > 0,
        forall|i: int| 0 <= i < data.len() ==> !(#[trigger] data[i]).nan(),
        data.contains(least),
        data.contains(greatest),
        forall|i: int| 0 <= i < data.len() ==> least.at_most(#[trigger] data[i]) && data[i].at_most(greatest),
        forall|i: int, j: int|
            0 <= i < data.len() && 0 <= j < data.len() && (#[trigger] data[i]).equals(
                #[trigger] data[j],
            ) ==> data[i] == data[j],
        data[0].finite(),
        c(least) && c(greatest) && c(num(SHIFT_PART)),
        num(LEAST).below(ar.minus(greatest, least)),
    ensures
        least.positive() ==> shift_for(ar, data) == num(0),
        !least.positive() ==> ar.plus(least, shift_for(ar, data)) == ar.times(
            num(SHIFT_PART),
            ar.minus(greatest, least),
        ),
{
    let lo = lemma_least(data);
    let hi = lemma_greatest(data);
    let i = choose|i: int| 0 <= i < data.len() && data[i] == least;
    let j = choose|j: int| 0 <= j < data.len() && data[j] == greatest;
    assert(data[lo].at_most(data[i]) && data[j].at_most(data[hi]));
    assert(data[lo] == least && data[hi] == greatest);
    closed(ar, c, greatest, least);
    let part = ar.times(num(SHIFT_PART), ar.minus(greatest, least));
    closed(ar, c, num(SHIFT_PART), ar.minus(greatest, least));
    lemma_minus_undoes(ar, c, part, least);
}

proof fn lemma_least(data: Seq<Double>) -> (i: int)
    requires
        data.len() > 0,
        forall|i: int| 0 <= i < data.len() ==> !(#[trigger] data[i]).nan(),
        data[0].finite(),
    ensures
        0 <= i < data.len(),
        least_of(data) == data[i],
        forall|j: int| 0 <= j < data.len() ==> data[i].at_most(#[trigger] data[j]),
    decreases data.len(),
{
    let n = data.len() - 1;
    let rest = data.drop_last();
    if n == 0 {
        assert(rest.len() == 0);
        assert(least_of(rest) == num(INFINITE));
        assert(least_of(data) == num(INFINITE).min(data[0]));
        0
    } else {
        assert forall|i: int| 0 <= i < rest.len() implies !(#[trigger] rest[i]).nan() by {
            assert(!data[i].nan());
        }
        let i = lemma_least(rest);
        assert(!data[n].nan() && data.last() == data[n]);
        assert forall|j: int| 0 <= j < n implies data[i].at_most(#[trigger] data[j]) by {
            assert(rest[i].at_most(rest[j]));
        }
        if data[n].below(data[i]) {
            n
        } else {
            i
        }
    }
}

proof fn lemma_greatest(data: Seq<Double>) -> (i: int)
    requires
        data.len() > 0,
        forall|i: int| 0 <= i < data.len() ==> !(#[trigger] data[i]).nan(),
        data[0].finite(),
    ensures
        0 <= i < data.len(),
        greatest_of(data) == data[i],
        forall|j: int| 0 <= j < data.len() ==> (#[trigger] data[j]).at_most(data[i]),
    decreases data.len(),
{
    let n = data.len() - 1;
    let rest = data.drop_last();
    if n == 0 {
        assert(rest.len() == 0);
        assert(greatest_of(rest) == num(INFINITE).neg());
        assert(greatest_of(data) == num(INFINITE).neg().max(data[0]));
        0
    } else {
        assert forall|i: int| 0 <= i < rest.len() implies !(#[trigger] rest[i]).nan() by {
            assert(!data[i].nan());
        }
        let i = lemma_greatest(rest);
        assert(!data[n].nan() && data.last() == data[n]);
        assert forall|j: int| 0 <= j < n implies (#[trigger] data[j]).at_most(data[i]) by {
            assert(rest[j].at_most(rest[i]));
        }
        if data[i].below(data[n]) {
            n
        } else {
            i
        }
    }
}

} // verus!

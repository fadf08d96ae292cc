//! Drifts over an arithmetic without rounding: universal kriging reproduces polynomials in
//! the coordinates, and external drift kriging its covariates.

use vstd::prelude::*;

use crate::algebra::{lemma_minus_undoes, lemma_rows_added};
use crate::arith::{num, Arithmetic, Op, HALF};
use crate::bucket_grid::{extents_of, widest};
use crate::covariance::no_separation;
use crate::data::PointSet;
use crate::double::{Double, ONE};
use crate::equations::{chosen, covs_to, covs_with, numeric, ones, or_zero, picked};
use crate::error::GeostatError;
use crate::exact::{
    all_numbers, applied, closed, distributes, elimination_satisfies_the_system, exact,
    lemma_dot_start, lemma_span_agrees, lemma_span_closed, span_sum, times_associates, Numbers,
};
use crate::exact_collocated::lemma_span_scaled;
use crate::exact_kriging::{computes_in, lemma_dot_is_span, term_at, weights_reproduce_the_drift};
use crate::fits::{regressor, residuals_carry_no_trend, residuals_of, rows_numeric};
use crate::kriging::{is_bbox, quadratics, KrigingEstimate, KrigingMethod, Setting};
use crate::linalg::solution;
use crate::regression::{
    covariate_count, detrended, normalized, ols_outcome, pair_products, poly_detrended,
    polynomial_rows, products_with, revalued, OlsTrend,
};

verus! {

/// Coordinate `a` of the places.
pub open spec fn along(places: Seq<Seq<Double>>, a: int) -> Seq<Double> {
    Seq::new(places.len(), |i: int| places[i][a])
}

/// Products of coordinates `a` and `b` of the places.
pub open spec fn products_along<F: Fn(Op, Double, Double) -> Double>(
    ar: Arithmetic<F>,
    places: Seq<Seq<Double>>,
    a: int,
    b: int,
) -> Seq<Double> {
    Seq::new(places.len(), |i: int| ar.times(places[i][a], places[i][b]))
}

/// Where weights reproduce two functions, they reproduce every combination of them.
proof fn lemma_combination<F: Fn(Op, Double, Double) -> Double>(
    ar: Arithmetic<F>,
    c: Numbers,
    w: Seq<Double>,
    n: int,
    k: Double,
    f: Seq<Double>,
    ft: Double,
    l: Double,
    g: Seq<Double>,
    gt: Double,
    h: Seq<Double>,
)
    requires
        exact(ar, c),
        c(k),
        c(l),
        all_numbers(c, w),
        all_numbers(c, f),
        all_numbers(c, g),
        0 <= n <= w.len(),
        f.len() == n,
        g.len() == n,
        h.len() == n,
        span_sum(ar, f, w, 0, n) == ft,
        span_sum(ar, g, w, 0, n) == gt,
        forall|i: int|
            0 <= i < n ==> #[trigger] h[i] == ar.plus(ar.times(k, f[i]), ar.times(l, g[i])),
    ensures
        span_sum(ar, h, w, 0, n) == ar.plus(ar.times(k, ft), ar.times(l, gt)),
        all_numbers(c, h),
{
    let kf = Seq::new(n as nat, |i: int| ar.times(k, f[i]));
    let lg = Seq::new(n as nat, |i: int| ar.times(l, g[i]));
    assert forall|i: int| 0 <= i < n implies c(#[trigger] kf[i]) && c(lg[i]) by {
        assert(c(f[i]) && c(g[i]));
        closed(ar, c, k, f[i]);
        closed(ar, c, l, g[i]);
    }
    assert forall|i: int| 0 <= i < n implies c(#[trigger] lg[i]) by {
        assert(c(kf[i]));
    }
    assert forall|i: int| 0 <= i < n implies c(#[trigger] h[i]) by {
        assert(c(kf[i]) && c(lg[i]));
        closed(ar, c, kf[i], lg[i]);
    }
    lemma_span_scaled(ar, c, k, f, kf, w, n);
    lemma_span_scaled(ar, c, l, g, lg, w, n);
    lemma_rows_added(ar, c, kf, lg, h, w, n);
}

/// Position of the products that start with coordinate `a`, of `n`.
spec fn products_from(n: nat, a: nat) -> nat
    decreases a,
{
    if a == 0 {
        0
    } else {
        products_from(n, (a - 1) as nat) + (n - (a - 1)) as nat
    }
}

/// Where the product of two coordinates stands among the quadratic terms.
proof fn lemma_product_at<F: Fn(Op, Double, Double) -> Double>(
    ar: Arithmetic<F>,
    x: Seq<Double>,
    n: nat,
    a: int,
    b: int,
)
    requires
        n <= x.len(),
        0 <= a < n,
        a <= b < x.len(),
    ensures
        quadratics(ar, x, n).len() == products_from(x.len(), n),
        0 <= products_from(x.len(), a as nat) + b - a < quadratics(ar, x, n).len(),
        quadratics(ar, x, n)[products_from(x.len(), a as nat) + b - a] == ar.times(x[a], x[b]),
    decreases n,
{
    let before = quadratics(ar, x, (n - 1) as nat);
    if a < n - 1 {
        lemma_product_at(ar, x, (n - 1) as nat, a, b);
    } else {
        if n > 1 {
            lemma_product_at(ar, x, (n - 1) as nat, 0, 0);
        }
        assert(before.len() == products_from(x.len(), (n - 1) as nat));
    }
}

/// A coordinate is the center and a multiple of the normalized coordinate.
proof fn lemma_denormalized<F: Fn(Op, Double, Double) -> Double>(
    ar: Arithmetic<F>,
    c: Numbers,
    p: Double,
    center: Double,
    scale: Double,
)
    requires
        exact(ar, c),
        c(p),
        c(center),
        c(scale),
        scale != num(0),
    ensures
        ({
            let x = ar.over(ar.minus(p, center), scale);
            &&& c(x)
            &&& p == ar.plus(ar.times(center, num(ONE)), ar.times(scale, x))
        }),
{
    closed(ar, c, p, center);
    let d = ar.minus(p, center);
    closed(ar, c, d, scale);
    let x = ar.over(d, scale);
    closed(ar, c, x, scale);
    closed(ar, c, center, num(ONE));
    lemma_minus_undoes(ar, c, p, center);
}

/// Universal kriging reproduces polynomials in the coordinates: its weights sum to one,
/// give every coordinate of the target from those of the conditioning points and, for
/// degree two, every product of two coordinates. The estimate is the values, weighted; so
/// a trend of that degree is predicted as it is.
pub proof fn universal_kriging_reproduces_polynomials<'a, const D: usize, F: Fn(Op, Double, Double) -> Double, G: Fn([Double; D]) -> Double>(
    s: &Setting<'a, D, G>,
    ar: Arithmetic<F>,
    c: Numbers,
    nb: Seq<usize>,
    target: [Double; D],
    degree: u8,
    e: KrigingEstimate,
)
    requires
        computes_in(s, ar, c, nb),
        all_numbers(c, s.rhs(ar, nb, target@, Seq::empty())),
        s.config.method == (KrigingMethod::Universal { degree }),
        1 <= degree <= 2,
        all_numbers(c, s.center@),
        c(s.scale),
        s.scale != num(0),
        all_numbers(c, target@),
        forall|i: int|
            0 <= i < nb.len() ==> all_numbers(c, #[trigger] chosen(s.data.places(), nb)[i]),
        s.kriged(ar, target, Seq::empty(), nb, Ok(e)),
    ensures
        exists|w: Seq<Double>| #[trigger]
            all_numbers(c, w) && ({
                let n = nb.len() as int;
                let places = chosen(s.data.places(), nb);
                &&& n <= w.len()
                &&& e.value == span_sum(ar, picked(s.data.attributes(), nb), w, 0, n)
                &&& span_sum(ar, ones(nb.len()), w, 0, n) == num(ONE)
                &&& forall|a: int|
                    0 <= a < D ==> span_sum(ar, #[trigger] along(places, a), w, 0, n) == target@[a]
                &&& degree == 2 ==> forall|a: int, b: int|
                    0 <= a < D && 0 <= b < D ==> span_sum(
                        ar,
                        #[trigger] products_along(ar, places, a, b),
                        w,
                        0,
                        n,
                    ) == ar.times(target@[a], target@[b])
            }),
{
    let n = nb.len() as int;
    let m = s.lhs(ar, nb);
    let b = s.rhs(ar, nb, target@, Seq::empty());
    let places = chosen(s.data.places(), nb);
    let w = choose|w: Seq<Double>| #[trigger]
        solution(ar, m, b, w) && e == s.weighted(ar, nb, w, b, s.top());
    elimination_satisfies_the_system(ar, c, m, b, w);
    assert(w.len() == m.len());
    let values = picked(s.data.attributes(), nb);
    assert(values =~= s.values_at(nb));
    closed(ar, c, num(0), num(ONE));
    assert(nb.len() >= s.terms() && s.terms() >= 1) by {
        if degree == 2 {
            assert(D * (D + 1) >= 0) by (nonlinear_arith);
        }
    }
    lemma_dot_start(ar, c, w, values, n);
    lemma_dot_is_span(ar, c, num(0), w, values, n);
    lemma_span_closed(ar, c, values, w, 0, n);
    closed(ar, c, span_sum(ar, values, w, 0, n), num(0));
    // The constant.
    weights_reproduce_the_drift(s, ar, c, nb, target@, Seq::empty(), w, 0);
    let sums = ones(nb.len());
    assert(term_at(s, ar, nb, 0) =~= sums);
    assert(s.basis(ar, target@, Seq::empty())[0] == num(ONE));
    // The coordinates.
    let xt = s.normalized(ar, target@);
    assert forall|a: int| 0 <= a < D implies span_sum(ar, #[trigger] along(places, a), w, 0, n)
        == target@[a] by {
        lemma_coordinate(s, ar, c, nb, target, degree, w, a);
    }
    if degree == 2 {
        assert forall|a: int, d: int| 0 <= a < D && 0 <= d < D implies span_sum(
            ar,
            #[trigger] products_along(ar, places, a, d),
            w,
            0,
            n,
        ) == ar.times(target@[a], target@[d]) by {
            if a <= d {
                lemma_product(s, ar, c, nb, target, w, a, d);
            } else {
                lemma_product(s, ar, c, nb, target, w, d, a);
                assert(products_along(ar, places, a, d) =~= products_along(ar, places, d, a)) by {
                    assert forall|i: int| 0 <= i < n implies products_along(ar, places, a, d)[i]
                        == products_along(ar, places, d, a)[i] by {
                        assert(all_numbers(c, places[i]));
                        closed(ar, c, places[i][a], places[i][d]);
                    }
                }
                closed(ar, c, target@[a], target@[d]);
            }
        }
    }
}

/// The normalized coordinate `a` is reproduced, and so the coordinate.
proof fn lemma_coordinate<'a, const D: usize, F: Fn(Op, Double, Double) -> Double, G: Fn([Double; D]) -> Double>(
    s: &Setting<'a, D, G>,
    ar: Arithmetic<F>,
    c: Numbers,
    nb: Seq<usize>,
    target: [Double; D],
    degree: u8,
    w: Seq<Double>,
    a: int,
)
    requires
        computes_in(s, ar, c, nb),
        all_numbers(c, s.rhs(ar, nb, target@, Seq::empty())),
        s.config.method == (KrigingMethod::Universal { degree }),
        1 <= degree <= 2,
        all_numbers(c, s.center@),
        c(s.scale),
        s.scale != num(0),
        all_numbers(c, target@),
        forall|i: int|
            0 <= i < nb.len() ==> all_numbers(c, #[trigger] chosen(s.data.places(), nb)[i]),
        solution(ar, s.lhs(ar, nb), s.rhs(ar, nb, target@, Seq::empty()), w),
        all_numbers(c, w),
        w.len() >= nb.len(),
        span_sum(ar, ones(nb.len()), w, 0, nb.len() as int) == num(ONE),
        0 <= a < D,
    ensures
        span_sum(ar, along(chosen(s.data.places(), nb), a), w, 0, nb.len() as int) == target@[a],
        span_sum(
            ar,
            Seq::new(nb.len(), |i: int| s.normalized(ar, chosen(s.data.places(), nb)[i])[a]),
            w,
            0,
            nb.len() as int,
        ) == s.normalized(ar, target@)[a],
{
    let n = nb.len() as int;
    let places = chosen(s.data.places(), nb);
    let t = 1 + a;
    assert(s.terms() > t) by {
        if degree == 2 {
            assert(D * (D + 1) >= 0) by (nonlinear_arith);
        }
    }
    weights_reproduce_the_drift(s, ar, c, nb, target@, Seq::empty(), w, t);
    let x = Seq::new(nb.len(), |i: int| s.normalized(ar, places[i])[a]);
    assert forall|i: int| 0 <= i < n implies x[i] == term_at(s, ar, nb, t)[i] by {}
    assert(x =~= term_at(s, ar, nb, t));
    let xt = s.normalized(ar, target@)[a];
    assert(s.basis(ar, target@, Seq::empty())[t] == xt);
    assert(c(s.center@[a]) && c(target@[a]));
    assert forall|i: int| 0 <= i < n implies c(#[trigger] x[i]) by {
        assert(all_numbers(c, places[i]));
        lemma_denormalized(ar, c, places[i][a], s.center@[a], s.scale);
    }
    closed(ar, c, num(0), num(ONE));
    let h = along(places, a);
    assert forall|i: int| 0 <= i < n implies #[trigger] h[i] == ar.plus(
        ar.times(s.center@[a], ones(nb.len())[i]),
        ar.times(s.scale, x[i]),
    ) by {
        assert(all_numbers(c, places[i]));
        lemma_denormalized(ar, c, places[i][a], s.center@[a], s.scale);
    }
    lemma_combination(
        ar,
        c,
        w,
        n,
        s.center@[a],
        ones(nb.len()),
        num(ONE),
        s.scale,
        x,
        xt,
        h,
    );
    lemma_denormalized(ar, c, target@[a], s.center@[a], s.scale);
}

/// `(f + s x) p == f p + s (x p)`, where `f` is a multiple of one.
proof fn lemma_expanded<F: Fn(Op, Double, Double) -> Double>(
    ar: Arithmetic<F>,
    c: Numbers,
    f: Double,
    s: Double,
    x: Double,
    p: Double,
)
    requires
        exact(ar, c),
        c(f),
        c(s),
        c(x),
        c(p),
    ensures
        ar.times(ar.plus(ar.times(f, num(ONE)), ar.times(s, x)), p) == ar.plus(
            ar.times(f, p),
            ar.times(s, ar.times(x, p)),
        ),
        c(ar.times(x, p)),
{
    closed(ar, c, f, num(ONE));
    closed(ar, c, s, x);
    let sx = ar.times(s, x);
    closed(ar, c, f, sx);
    closed(ar, c, ar.plus(f, sx), p);
    distributes(ar, c, p, f, sx);
    closed(ar, c, p, f);
    closed(ar, c, p, sx);
    times_associates(ar, c, s, x, p);
    closed(ar, c, x, p);
}

/// The product of two coordinates is reproduced.
proof fn lemma_product<'a, const D: usize, F: Fn(Op, Double, Double) -> Double, G: Fn([Double; D]) -> Double>(
    s: &Setting<'a, D, G>,
    ar: Arithmetic<F>,
    c: Numbers,
    nb: Seq<usize>,
    target: [Double; D],
    w: Seq<Double>,
    a: int,
    d: int,
)
    requires
        computes_in(s, ar, c, nb),
        all_numbers(c, s.rhs(ar, nb, target@, Seq::empty())),
        s.config.method == (KrigingMethod::Universal { degree: 2 }),
        all_numbers(c, s.center@),
        c(s.scale),
        s.scale != num(0),
        all_numbers(c, target@),
        forall|i: int|
            0 <= i < nb.len() ==> all_numbers(c, #[trigger] chosen(s.data.places(), nb)[i]),
        solution(ar, s.lhs(ar, nb), s.rhs(ar, nb, target@, Seq::empty()), w),
        all_numbers(c, w),
        w.len() >= nb.len(),
        span_sum(ar, ones(nb.len()), w, 0, nb.len() as int) == num(ONE),
        0 <= a <= d < D,
    ensures
        span_sum(
            ar,
            products_along(ar, chosen(s.data.places(), nb), a, d),
            w,
            0,
            nb.len() as int,
        ) == ar.times(target@[a], target@[d]),
{
    let n = nb.len() as int;
    let places = chosen(s.data.places(), nb);
    let xt = s.normalized(ar, target@);
    let q = products_from(D as nat, a as nat) + d - a;
    let t = 1 + D + q;
    lemma_product_at(ar, xt, D as nat, a, d);
    lemma_terms(ar, xt);
    assert(s.terms() > t);
    weights_reproduce_the_drift(s, ar, c, nb, target@, Seq::empty(), w, t);
    let xx = Seq::new(
        nb.len(),
        |i: int| ar.times(s.normalized(ar, places[i])[a], s.normalized(ar, places[i])[d]),
    );
    assert forall|i: int| 0 <= i < n implies xx[i] == term_at(s, ar, nb, t)[i] by {
        lemma_product_at(ar, s.normalized(ar, places[i]), D as nat, a, d);
    }
    assert(xx =~= term_at(s, ar, nb, t));
    assert(s.basis(ar, target@, Seq::empty())[t] == ar.times(xt[a], xt[d]));
    lemma_coordinate(s, ar, c, nb, target, 2, w, a);
    lemma_coordinate(s, ar, c, nb, target, 2, w, d);
    let x = Seq::new(nb.len(), |i: int| s.normalized(ar, places[i])[a]);
    let (ca, cd, scale) = (s.center@[a], s.center@[d], s.scale);
    assert(c(ca) && c(cd) && c(target@[a]) && c(target@[d]));
    lemma_denormalized(ar, c, target@[a], ca, scale);
    lemma_denormalized(ar, c, target@[d], cd, scale);
    assert forall|i: int| 0 <= i < n implies c(#[trigger] x[i]) && c(xx[i]) && c(places[i][a]) && c(
        places[i][d],
    ) && c(s.normalized(ar, places[i])[d]) by {
        assert(all_numbers(c, places[i]));
        assert(c(places[i][a]) && c(places[i][d]));
        lemma_denormalized(ar, c, places[i][a], ca, scale);
        lemma_denormalized(ar, c, places[i][d], cd, scale);
        closed(ar, c, x[i], s.normalized(ar, places[i])[d]);
    }
    assert forall|i: int| 0 <= i < n implies c(#[trigger] xx[i]) by {
        assert(c(x[i]));
    }
    // Normalized coordinate `a` times coordinate `d`.
    let xp = Seq::new(nb.len(), |i: int| ar.times(x[i], places[i][d]));
    let xpt = ar.times(xt[a], target@[d]);
    assert forall|i: int| 0 <= i < n implies #[trigger] xp[i] == ar.plus(
        ar.times(cd, x[i]),
        ar.times(scale, xx[i]),
    ) by {
        assert(c(x[i]));
        let y = s.normalized(ar, places[i])[d];
        lemma_denormalized(ar, c, places[i][d], cd, scale);
        lemma_expanded(ar, c, cd, scale, y, x[i]);
        closed(ar, c, x[i], places[i][d]);
        closed(ar, c, x[i], y);
    }
    lemma_combination(ar, c, w, n, cd, x, xt[a], scale, xx, ar.times(xt[a], xt[d]), xp);
    assert(xpt == ar.plus(ar.times(cd, xt[a]), ar.times(scale, ar.times(xt[a], xt[d])))) by {
        lemma_expanded(ar, c, cd, scale, xt[d], xt[a]);
        closed(ar, c, xt[a], target@[d]);
        closed(ar, c, xt[a], xt[d]);
    }
    // Coordinate `a` times coordinate `d`.
    let p = along(places, d);
    assert forall|i: int| 0 <= i < n implies c(#[trigger] p[i]) by {
        assert(c(x[i]));
    }
    let h = products_along(ar, places, a, d);
    assert forall|i: int| 0 <= i < n implies #[trigger] h[i] == ar.plus(
        ar.times(ca, p[i]),
        ar.times(scale, xp[i]),
    ) by {
        assert(c(x[i]));
        lemma_denormalized(ar, c, places[i][a], ca, scale);
        lemma_expanded(ar, c, ca, scale, x[i], p[i]);
    }
    lemma_combination(ar, c, w, n, ca, p, target@[d], scale, xp, xpt, h);
    lemma_expanded(ar, c, ca, scale, xt[a], target@[d]);
}

/// There are as many quadratic terms as pairs of coordinates.
proof fn lemma_terms<F: Fn(Op, Double, Double) -> Double>(ar: Arithmetic<F>, x: Seq<Double>)
    ensures
        quadratics(ar, x, x.len()).len() == x.len() * (x.len() + 1) / 2,
{
    let n = x.len();
    if n > 0 {
        lemma_product_at(ar, x, n, 0, 0);
    }
    lemma_products_from(n, n);
    assert(n * (n + 1) == 2 * n * n - n * (n - 1)) by (nonlinear_arith);
}

proof fn lemma_products_from(n: nat, a: nat)
    requires
        a <= n,
    ensures
        2 * products_from(n, a) == 2 * n * a - a * (a - 1),
    decreases a,
{
    let (m, k) = (n as int, a - 1);
    if a > 0 {
        lemma_products_from(n, (a - 1) as nat);
        let before = products_from(n, (a - 1) as nat) as int;
        assert(2 * before == 2 * m * k - k * (k - 1));
        assert(2 * (before + (m - k)) == 2 * m * (k + 1) - (k + 1) * k) by (nonlinear_arith)
            requires
                2 * before == 2 * m * k - k * (k - 1),
        ;
        assert(products_from(n, a) == before + (m - k));
    } else {
        assert(2 * m * 0 - 0 * (0 - 1) == 0) by (nonlinear_arith);
    }
}

/// Covariate `k` at the conditioning points.
pub open spec fn covariate_at(rows: Seq<Vec<Double>>, nb: Seq<usize>, k: int) -> Seq<Double> {
    Seq::new(nb.len(), |i: int| rows[nb[i] as int]@[k])
}

/// External drift kriging reproduces its covariates: its weights sum to one and give every
/// covariate of the target from those of the conditioning points. The estimate is the
/// values, weighted; so values that are linear in the covariates are predicted as such.
pub proof fn external_drift_kriging_reproduces_covariates<'a, const D: usize, F: Fn(Op, Double, Double) -> Double, G: Fn([Double; D]) -> Double>(
    s: &Setting<'a, D, G>,
    ar: Arithmetic<F>,
    c: Numbers,
    nb: Seq<usize>,
    target: [Double; D],
    drift: Seq<Double>,
    n_vars: usize,
    e: KrigingEstimate,
)
    requires
        computes_in(s, ar, c, nb),
        all_numbers(c, s.rhs(ar, nb, target@, drift)),
        s.config.method == (KrigingMethod::ExternalDrift { n_vars }),
        drift.len() == n_vars,
        all_numbers(c, drift),
        forall|k: int|
            0 <= k < n_vars ==> c(#[trigger] s.drift_mean@[k]) && c(s.drift_scale@[k])
                && s.drift_scale@[k] != num(0),
        forall|i: int|
            0 <= i < nb.len() ==> (#[trigger] nb[i]) < s.drift_data@.len() && all_numbers(
                c,
                s.drift_data@[nb[i] as int]@,
            ) && s.drift_data@[nb[i] as int]@.len() == n_vars,
        s.kriged(ar, target, drift, nb, Ok(e)),
    ensures
        exists|w: Seq<Double>| #[trigger]
            all_numbers(c, w) && ({
                let n = nb.len() as int;
                &&& n <= w.len()
                &&& e.value == span_sum(ar, picked(s.data.attributes(), nb), w, 0, n)
                &&& span_sum(ar, ones(nb.len()), w, 0, n) == num(ONE)
                &&& forall|k: int|
                    0 <= k < n_vars ==> span_sum(
                        ar,
                        #[trigger] covariate_at(s.drift_data@, nb, k),
                        w,
                        0,
                        n,
                    ) == drift[k]
            }),
{
    let n = nb.len() as int;
    let m = s.lhs(ar, nb);
    let b = s.rhs(ar, nb, target@, drift);
    let w = choose|w: Seq<Double>| #[trigger]
        solution(ar, m, b, w) && e == s.weighted(ar, nb, w, b, s.top());
    elimination_satisfies_the_system(ar, c, m, b, w);
    assert(w.len() == m.len());
    let values = picked(s.data.attributes(), nb);
    assert(values =~= s.values_at(nb));
    closed(ar, c, num(0), num(ONE));
    lemma_dot_start(ar, c, w, values, n);
    lemma_dot_is_span(ar, c, num(0), w, values, n);
    lemma_span_closed(ar, c, values, w, 0, n);
    closed(ar, c, span_sum(ar, values, w, 0, n), num(0));
    weights_reproduce_the_drift(s, ar, c, nb, target@, drift, w, 0);
    let sums = ones(nb.len());
    assert(term_at(s, ar, nb, 0) =~= sums);
    assert forall|k: int| 0 <= k < n_vars implies span_sum(
        ar,
        #[trigger] covariate_at(s.drift_data@, nb, k),
        w,
        0,
        n,
    ) == drift[k] by {
        weights_reproduce_the_drift(s, ar, c, nb, target@, drift, w, 1 + k);
        let (mean, scale) = (s.drift_mean@[k], s.drift_scale@[k]);
        assert(c(mean) && c(scale) && scale != num(0) && c(drift[k]));
        let y = covariate_at(s.drift_data@, nb, k);
        let x = Seq::new(nb.len(), |i: int| ar.over(ar.minus(y[i], mean), scale));
        assert forall|i: int| 0 <= i < n implies x[i] == term_at(s, ar, nb, 1 + k)[i] && c(
            #[trigger] x[i],
        ) && y[i] == ar.plus(ar.times(mean, sums[i]), ar.times(scale, x[i])) by {
            assert(nb[i] < s.drift_data@.len());
            assert(c(s.drift_data@[nb[i] as int]@[k]));
            lemma_denormalized(ar, c, y[i], mean, scale);
        }
        assert(x =~= term_at(s, ar, nb, 1 + k));
        assert forall|i: int| 0 <= i < n implies #[trigger] y[i] == ar.plus(
            ar.times(mean, sums[i]),
            ar.times(scale, x[i]),
        ) by {
            assert(c(x[i]));
        }
        let xt = ar.over(ar.minus(drift[k], mean), scale);
        assert(s.basis(ar, target@, drift)[1 + k] == xt);
        lemma_combination(ar, c, w, n, mean, sums, num(ONE), scale, x, xt, y);
        lemma_denormalized(ar, c, drift[k], mean, scale);
    }
}

/// Covariances, then drift terms, `all` in total.
pub open spec fn and_terms(covs: Seq<Double>, terms: Seq<Double>, all: nat) -> Seq<Double> {
    Seq::new(
        all,
        |k: int|
            if k < covs.len() {
                covs[k]
            } else {
                terms[k - covs.len()]
            },
    )
}

/// Kriging with a drift balances covariances: for every conditioning point the weighted
/// covariances with the others (its measurement error added to its own) and the multiples
/// of its drift terms make up the covariance with the target, and the variance is what the
/// weighted covariances and the multiples of the target's drift terms leave of the sill.
pub proof fn drift_kriging_balances_covariances<'a, const D: usize, F: Fn(Op, Double, Double) -> Double, G: Fn([Double; D]) -> Double>(
    s: &Setting<'a, D, G>,
    ar: Arithmetic<F>,
    c: Numbers,
    nb: Seq<usize>,
    target: [Double; D],
    drift: Seq<Double>,
    e: KrigingEstimate,
)
    requires
        numeric(ar, c, *s.model),
        computes_in(s, ar, c, nb),
        all_numbers(c, s.rhs(ar, nb, target@, drift)),
        s.config.method is Universal || s.config.method is ExternalDrift,
        s.config.method matches KrigingMethod::Universal { degree } ==> 1 <= degree <= 2,
        all_numbers(c, s.measurement_error@),
        s.kriged(ar, target, drift, nb, Ok(e)),
    ensures
        exists|w: Seq<Double>| #[trigger]
            all_numbers(c, w) && w.len() == nb.len() + s.terms() && ({
                let n = nb.len() as int;
                let all = w.len() as int;
                let sill = s.model.sill;
                let places = chosen(s.data.places(), nb);
                let near = covs_to(ar, *s.model, places, target@);
                &&& forall|i: int|
                    0 <= i < n ==> span_sum(
                        ar,
                        and_terms(
                            covs_with(
                                ar,
                                *s.model,
                                places,
                                i,
                                ar.plus(sill, or_zero(s.measurement_error@, nb[i] as int)),
                            ),
                            s.basis_at(ar, nb[i] as int),
                            w.len(),
                        ),
                        w,
                        0,
                        all,
                    ) == #[trigger] near[i]
                &&& e.value == span_sum(ar, picked(s.data.attributes(), nb), w, 0, n)
                &&& e.variance == ar.minus(
                    sill,
                    span_sum(ar, and_terms(near, s.basis(ar, target@, drift), w.len()), w, 0, all),
                ).max(num(0))
            }),
{
    let n = nb.len() as int;
    let sill = s.model.sill;
    let m = s.lhs(ar, nb);
    let b = s.rhs(ar, nb, target@, drift);
    let zero = no_separation(D as nat);
    let places = chosen(s.data.places(), nb);
    let values = picked(s.data.attributes(), nb);
    let near = covs_to(ar, *s.model, places, target@);
    let w = choose|w: Seq<Double>| #[trigger]
        solution(ar, m, b, w) && e == s.weighted(ar, nb, w, b, s.top());
    closed(ar, c, num(0), num(ONE));
    crate::exact_kriging::lemma_differences(ar, c, sill);
    assert(s.model.entry(ar, zero) == sill);
    elimination_satisfies_the_system(ar, c, m, b, w);
    let all = m.len() as int;
    assert(w.len() == all && all == n + s.terms());
    assert(nb.len() >= s.terms() && s.terms() >= 1) by {
        if let KrigingMethod::Universal { degree } = s.config.method {
            assert(D * (D + 1) >= 0) by (nonlinear_arith);
        }
    }
    assert(values =~= s.values_at(nb));
    let right = and_terms(near, s.basis(ar, target@, drift), w.len());
    assert forall|i: int| 0 <= i < n implies #[trigger] near[i] == b[i] by {}
    assert forall|k: int| 0 <= k < all implies #[trigger] right[k] == b[k] by {
        if k < n {
            assert(near[k] == b[k]);
        }
    }
    assert forall|i: int| 0 <= i < n implies span_sum(
        ar,
        and_terms(
            covs_with(
                ar,
                *s.model,
                places,
                i,
                ar.plus(sill, or_zero(s.measurement_error@, nb[i] as int)),
            ),
            s.basis_at(ar, nb[i] as int),
            w.len(),
        ),
        w,
        0,
        all,
    ) == #[trigger] near[i] by {
        let covs = covs_with(
            ar,
            *s.model,
            places,
            i,
            ar.plus(sill, or_zero(s.measurement_error@, nb[i] as int)),
        );
        let row = and_terms(covs, s.basis_at(ar, nb[i] as int), w.len());
        assert forall|j: int| 0 <= j < all implies #[trigger] row[j] == m[i][j] by {
            assert(m[i][j] == s.lhs_cell(ar, nb, i, j));
            if j < n {
                let (p, q) = (places[i], places[j]);
                assert(s.model.semivariance(ar.separation(p, q)) == s.model.semivariance(
                    ar.separation(q, p),
                ));
                assert(row[j] == covs[j]);
            }
        }
        assert(m[i].len() == m.len() && all_numbers(c, m[i]));
        assert(b[i] == applied(ar, m, w)[i]);
        lemma_span_agrees(ar, row, m[i], w, w, 0, all);
        assert(near[i] == b[i]);
    }
    lemma_span_agrees(ar, right, b, w, w, 0, all);
    lemma_span_closed(ar, c, b, w, 0, all);
    let reduction = span_sum(ar, b, w, 0, all);
    closed(ar, c, reduction, num(0));
    lemma_dot_start(ar, c, w, values, n);
    lemma_dot_is_span(ar, c, num(0), w, values, n);
    lemma_span_closed(ar, c, values, w, 0, n);
    closed(ar, c, span_sum(ar, values, w, 0, n), num(0));
    lemma_dot_start(ar, c, w, b, all);
    lemma_dot_is_span(ar, c, num(0), w, b, all);
    assert(all_numbers(c, w) && w.len() == nb.len() + s.terms());
}

/// The points of a data set, by their coordinates.
pub open spec fn spots<const D: usize>(places: Seq<[Double; D]>) -> Seq<Seq<Double>> {
    Seq::new(places.len(), |i: int| places[i]@)
}

/// Corners of the data, and the extent they are normalized by, are numbers.
pub open spec fn box_numeric<const D: usize, F: Fn(Op, Double, Double) -> Double>(
    ar: Arithmetic<F>,
    c: Numbers,
    places: Seq<[Double; D]>,
) -> bool {
    forall|min: [Double; D], max: [Double; D]| #[trigger]
        is_bbox(places, min, max) ==> all_numbers(c, min@) && all_numbers(c, max@) && ({
            let w = widest(extents_of(ar, min@, max@), D as int);
            c(w) && (w.positive() ==> w != num(0))
        })
}

proof fn lemma_swapped<F: Fn(Op, Double, Double) -> Double>(
    ar: Arithmetic<F>,
    c: Numbers,
    a: Seq<Double>,
    b: Seq<Double>,
    n: int,
)
    requires
        exact(ar, c),
        all_numbers(c, a),
        all_numbers(c, b),
        0 <= n <= a.len(),
        n <= b.len(),
    ensures
        span_sum(ar, a, b, 0, n) == span_sum(ar, b, a, 0, n),
    decreases n,
{
    if n > 0 {
        lemma_swapped(ar, c, a, b, n - 1);
        assert(c(a[n - 1]) && c(b[n - 1]));
        closed(ar, c, a[n - 1], b[n - 1]);
    }
}

proof fn lemma_same_products<F: Fn(Op, Double, Double) -> Double>(
    ar: Arithmetic<F>,
    u: Seq<Double>,
    n: nat,
)
    requires
        n <= u.len(),
    ensures
        pair_products(ar, u, n as int) == quadratics(ar, u, n),
    decreases n,
{
    if n > 0 {
        lemma_same_products(ar, u, (n - 1) as nat);
        assert(products_with(ar, u, n - 1, u.len() as int) =~= Seq::new(
            (u.len() - (n - 1)) as nat,
            |t: int| ar.times(u[n - 1], u[n - 1 + t]),
        ));
    }
}

/// Removing a polynomial trend leaves residuals without it: they sum to zero, and so do
/// their products with every coordinate and, for degree two, with every product of two
/// coordinates. Residuals stand at the places of the data, and with the trend they make up
/// the values.
pub proof fn residuals_carry_no_polynomial<const D: usize, F: Fn(Op, Double, Double) -> Double>(
    ar: Arithmetic<F>,
    c: Numbers,
    data: &PointSet<D>,
    degree: u8,
    out: (PointSet<D>, OlsTrend),
)
    requires
        exact(ar, c),
        c(num(HALF)),
        1 <= degree <= 2,
        data.places().len() > 0,
        data.attributes().len() == data.places().len(),
        all_numbers(c, data.attributes()),
        forall|i: int| 0 <= i < data.places().len() ==> all_numbers(c, #[trigger] spots(data.places())[i]),
        box_numeric(ar, c, data.places()),
        1 + D + D * (D + 1) / 2 <= usize::MAX,
        poly_detrended(ar, data, degree, Ok(out)),
    ensures
        out.0.places() == data.places(),
        ({
            let n = data.places().len();
            let places = spots(data.places());
            let left = out.0.attributes();
            &&& left.len() == n
            &&& span_sum(ar, ones(n), left, 0, n as int) == num(0)
            &&& forall|a: int|
                0 <= a < D ==> span_sum(ar, #[trigger] along(places, a), left, 0, n as int) == num(0)
            &&& degree == 2 ==> forall|a: int, b: int|
                0 <= a <= b < D ==> span_sum(
                    ar,
                    #[trigger] products_along(ar, places, a, b),
                    left,
                    0,
                    n as int,
                ) == num(0)
        }),
{
    let n = data.places().len() as int;
    let places = spots(data.places());
    let values = data.attributes();
    let r = Ok::<(PointSet<D>, OlsTrend), GeostatError>(out);
    let (min, max, rows) = choose|min: [Double; D], max: [Double; D], rows: Seq<Vec<Double>>|
        #![trigger is_bbox(data.places(), min, max), detrended(ar, data, rows, r)]
        is_bbox(data.places(), min, max) && polynomial_rows(
            ar,
            data.places(),
            min@,
            max@,
            degree,
            rows,
        ) && detrended(ar, data, rows, r);
    let fit = choose|fit: Result<OlsTrend, GeostatError>| #[trigger]
        ols_outcome(ar, rows, values, fit) && match fit {
            Err(e) => r == Err::<(PointSet<D>, OlsTrend), GeostatError>(e),
            Ok(trend) => {
                let resid = crate::regression::residuals_of(ar, &trend, values, rows);
                match r {
                    Ok(out) => out.1 == trend && revalued(
                        data.places(),
                        resid,
                        Ok::<PointSet<D>, GeostatError>(out.0),
                    ),
                    Err(e) => revalued(
                        data.places(),
                        resid,
                        Err::<PointSet<D>, GeostatError>(e),
                    ),
                }
            },
        };
    let trend = out.1;
    let left = out.0.attributes();
    assert(left =~= residuals_of(ar, trend, rows, values));
    let w = widest(extents_of(ar, min@, max@), D as int);
    let scale = if w.is_positive() {
        w
    } else {
        num(ONE)
    };
    closed(ar, c, num(0), num(ONE));
    assert(c(scale) && scale != num(0));
    let center = Seq::new(D as nat, |d: int| ar.times(num(HALF), ar.plus(min@[d], max@[d])));
    assert forall|d: int| 0 <= d < D implies c(#[trigger] center[d]) by {
        assert(c(min@[d]) && c(max@[d]));
        closed(ar, c, min@[d], max@[d]);
        closed(ar, c, num(HALF), ar.plus(min@[d], max@[d]));
    }
    // The normalized coordinates.
    let us = Seq::new(n as nat, |i: int| normalized(ar, places[i], min@, max@));
    assert forall|i: int, d: int| 0 <= i < n && 0 <= d < D implies c(#[trigger] us[i][d]) && c(
        places[i][d],
    ) && places[i][d] == ar.plus(ar.times(center[d], num(ONE)), ar.times(scale, us[i][d])) by {
        assert(all_numbers(c, places[i]));
        assert(c(places[i][d]) && c(center[d]));
        lemma_denormalized(ar, c, places[i][d], center[d], scale);
    }
    let p = if degree == 2 {
        (D + D * (D + 1) / 2) as nat
    } else {
        D as nat
    };
    assert forall|i: int| 0 <= i < n implies (#[trigger] rows[i])@.len() == p && all_numbers(
        c,
        rows[i]@,
    ) by {
        let u = us[i];
        assert(u.len() == D);
        if degree == 2 {
            lemma_same_products(ar, u, D as nat);
            lemma_terms(ar, u);
        }
        assert forall|k: int| 0 <= k < p implies c(#[trigger] rows[i]@[k]) by {
            if k < D {
                assert(c(us[i][k]));
            } else {
                lemma_all_products(ar, c, u, D as nat);
            }
        }
    }
    assert(covariate_count(rows) == p) by {
        assert(rows[0]@.len() == p);
    }
    assert(rows_numeric(c, rows));
    assert(trend.slopes().len() == 1 + p);
    assert forall|a: int| 0 <= a <= p implies span_sum(
        ar,
        #[trigger] regressor(rows, a),
        left,
        0,
        n,
    ) == num(0) && all_numbers(c, regressor(rows, a)) && all_numbers(c, left) by {
        residuals_carry_no_trend(ar, c, rows, values, trend, a);
        let g = regressor(rows, a);
        assert forall|i: int| 0 <= i < g.len() implies c(#[trigger] g[i]) by {
            assert(all_numbers(c, rows[i]@) && rows[i]@.len() == p);
            if a > 0 {
                assert(c(rows[i]@[a - 1]));
            }
        }
        lemma_swapped(ar, c, g, left, n);
    }
    assert(regressor(rows, 0) =~= ones(n as nat));
    assert forall|a: int| 0 <= a < D implies span_sum(
        ar,
        #[trigger] along(places, a),
        left,
        0,
        n,
    ) == num(0) && all_numbers(c, along(places, a)) && all_numbers(c, regressor(rows, 1 + a))
        && span_sum(ar, regressor(rows, 1 + a), left, 0, n) == num(0) && (forall|i: int|
        0 <= i < n ==> (#[trigger] regressor(rows, 1 + a)[i]) == us[i][a]) by {
        let g = regressor(rows, 1 + a);
        let one = regressor(rows, 0);
        let h = along(places, a);
        assert forall|i: int| 0 <= i < n implies (#[trigger] g[i]) == us[i][a] by {}
        assert forall|i: int| 0 <= i < n implies #[trigger] h[i] == ar.plus(
            ar.times(center[a], one[i]),
            ar.times(scale, g[i]),
        ) by {
            assert(c(us[i][a]));
        }
        assert(c(center[a]));
        lemma_combination(ar, c, left, n, center[a], one, num(0), scale, g, num(0), h);
        closed(ar, c, center[a], num(0));
        closed(ar, c, scale, num(0));
        closed(ar, c, num(0), num(0));
    }
    if degree == 2 {
        assert forall|a: int, b: int| 0 <= a <= b < D implies span_sum(
            ar,
            #[trigger] products_along(ar, places, a, b),
            left,
            0,
            n,
        ) == num(0) by {
            let q = products_from(D as nat, a as nat) + b - a;
            let t = 1 + D + q;
            let x = regressor(rows, 1 + a);
            let xx = regressor(rows, t);
            assert(c(center[a]) && c(center[b]));
            assert(span_sum(ar, along(places, a), left, 0, n) == num(0));
            assert(span_sum(ar, along(places, b), left, 0, n) == num(0));
            assert(0 <= q && t <= p) by {
                lemma_product_at(ar, us[0], D as nat, a, b);
                lemma_terms(ar, us[0]);
            }
            assert forall|i: int| 0 <= i < n implies #[trigger] xx[i] == ar.times(us[i][a], us[i][b])
                by {
                lemma_same_products(ar, us[i], D as nat);
                lemma_product_at(ar, us[i], D as nat, a, b);
                assert(rows[i]@ == us[i] + quadratics(ar, us[i], D as nat));
            }
            // Normalized coordinate `a` times coordinate `b`.
            let xp = Seq::new(n as nat, |i: int| ar.times(us[i][a], places[i][b]));
            assert forall|i: int| 0 <= i < n implies #[trigger] xp[i] == ar.plus(
                ar.times(center[b], x[i]),
                ar.times(scale, xx[i]),
            ) by {
                assert(c(us[i][a]) && c(us[i][b]));
                lemma_expanded(ar, c, center[b], scale, us[i][b], us[i][a]);
                closed(ar, c, us[i][a], places[i][b]);
                closed(ar, c, us[i][a], us[i][b]);
                assert(xx[i] == ar.times(us[i][a], us[i][b]));
                assert(x[i] == us[i][a]);
            }
            assert(span_sum(ar, regressor(rows, t), left, 0, n) == num(0));
            lemma_combination(ar, c, left, n, center[b], x, num(0), scale, xx, num(0), xp);
            closed(ar, c, center[b], num(0));
            closed(ar, c, center[a], num(0));
            closed(ar, c, scale, num(0));
            closed(ar, c, num(0), num(0));
            let pb = along(places, b);
            let h = products_along(ar, places, a, b);
            assert forall|i: int| 0 <= i < n implies #[trigger] h[i] == ar.plus(
                ar.times(center[a], pb[i]),
                ar.times(scale, xp[i]),
            ) by {
                assert(c(us[i][a]) && c(us[i][b]));
                lemma_expanded(ar, c, center[a], scale, us[i][a], places[i][b]);
            }
            lemma_combination(ar, c, left, n, center[a], pb, num(0), scale, xp, num(0), h);
        }
    }
}

proof fn lemma_all_products<F: Fn(Op, Double, Double) -> Double>(
    ar: Arithmetic<F>,
    c: Numbers,
    u: Seq<Double>,
    n: nat,
)
    requires
        exact(ar, c),
        n <= u.len(),
        forall|d: int| 0 <= d < u.len() ==> c(#[trigger] u[d]),
    ensures
        all_numbers(c, quadratics(ar, u, n)),
    decreases n,
{
    if n > 0 {
        lemma_all_products(ar, c, u, (n - 1) as nat);
        let before = quadratics(ar, u, (n - 1) as nat);
        let all = quadratics(ar, u, n);
        assert forall|k: int| 0 <= k < all.len() implies c(#[trigger] all[k]) by {
            if k < before.len() {
                assert(c(before[k]));
            } else {
                let t = k - before.len();
                assert(c(u[n - 1]) && c(u[n - 1 + t]));
                closed(ar, c, u[n - 1], u[n - 1 + t]);
            }
        }
    }
}

} // verus!

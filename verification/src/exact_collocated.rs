//! Collocated cokriging over an arithmetic without rounding: it honors the primary data,
//! and is simple kriging where the secondary is not correlated.

use vstd::prelude::*;

use crate::algebra::lemma_product_not_zero;
use crate::arith::{num, Arithmetic, Op};
use crate::collocated::{MarkovModel, Pairing};
use crate::covariance::{no_separation, ordered_gap, Covariance};
use crate::double::{Double, ONE};
use crate::exact::{
    all_numbers, applied, closed, elimination_finds_the_solution, elimination_satisfies_the_system,
    exact, lemma_span_agrees, span_sum, square_of, times_associates, times_cancels, Numbers,
};
use crate::exact_kriging::{
    computes_in, lemma_differences, lemma_unit_dot, lemma_unit_picks, unit_at,
};
use crate::kriging::{KrigingEstimate, KrigingMethod, Setting};
use crate::linalg::solution;
use crate::uncorrelated::{lemma_dot_agrees, lemma_zero_row, lemma_zero_weights};

verus! {

/// The correlogram of the model is one where points do not differ.
pub open spec fn one_at_rest<const D: usize, F: Fn(Op, Double, Double) -> Double, G: Fn([Double; D]) -> Double>(
    ar: Arithmetic<F>,
    c: Numbers,
    model: Covariance<D, G>,
) -> bool {
    &&& c(model.sill)
    &&& model.sill != num(0)
    &&& model.covariance(ar, no_separation(D as nat)) == model.sill
}

/// What collocated cokriging from these conditioning points computes with is numbers, and
/// the diagonal carries no ridge.
pub open spec fn collocates_in<'a, const D: usize, F: Fn(Op, Double, Double) -> Double, G: Fn([Double; D]) -> Double>(
    pair: &Pairing<'a, D, G>,
    ar: Arithmetic<F>,
    c: Numbers,
    nb: Seq<usize>,
    target: Seq<Double>,
    secondary: Double,
) -> bool {
    &&& exact(ar, c)
    &&& nb.len() < usize::MAX
    &&& square_of(c, pair.lhs(ar, nb, target))
    &&& all_numbers(c, pair.deviations(ar, nb))
    &&& pair.config.ridge == num(0)
    &&& c(pair.stats.mean1)
    &&& c(pair.stats.mean2)
    &&& c(pair.stats.rho12)
    &&& c(pair.stats.sigma1)
    &&& c(pair.stats.sigma2)
    &&& c(secondary)
    &&& one_at_rest(ar, c, *pair.model1)
    &&& pair.markov matches MarkovModel::Mm2 { secondary_model } ==> one_at_rest(
        ar,
        c,
        secondary_model,
    )
}

/// A number that is not zero makes one over itself.
pub(crate) proof fn lemma_over_itself<F: Fn(Op, Double, Double) -> Double>(ar: Arithmetic<F>, c: Numbers, a: Double)
    requires
        exact(ar, c),
        c(a),
        a != num(0),
    ensures
        ar.over(a, a) == num(ONE),
{
    closed(ar, c, a, a);
    closed(ar, c, num(ONE), a);
    times_cancels(ar, c, ar.over(a, a), num(ONE), a);
}

/// Collocated cokriging is exact at the primary data: at a primary data point among the
/// conditioning points, without a ridge, it gives the value of that point, with no
/// variance, whatever the secondary value is.
pub proof fn collocated_is_exact_at_the_data<'a, const D: usize, F: Fn(Op, Double, Double) -> Double, G: Fn([Double; D]) -> Double>(
    pair: &Pairing<'a, D, G>,
    ar: Arithmetic<F>,
    c: Numbers,
    nb: Seq<usize>,
    j: int,
    target: [Double; D],
    secondary: Double,
    e: KrigingEstimate,
)
    requires
        collocates_in(pair, ar, c, nb, target@, secondary),
        forall|p: Seq<Double>, q: Seq<Double>|
            #![trigger pair.model1.covariance(ar, ar.separation(p, q))]
            p.len() == D && q.len() == D ==> pair.model1.covariance(ar, ar.separation(p, q))
                == pair.model1.covariance(ar, ar.separation(q, p)),
        0 <= j < nb.len(),
        target@ == pair.primary.places()[nb[j] as int]@,
        all_numbers(c, target@),
        c(pair.primary.attributes()[nb[j] as int]),
        pair.kriged(ar, target, secondary, nb, Ok(e)),
    ensures
        e.value == pair.primary.attributes()[nb[j] as int],
        e.variance == num(0),
{
    let n = nb.len() as int;
    let dim = nb.len() + 1;
    let m = pair.lhs(ar, nb, target@);
    let b = pair.rhs(ar, nb, target@);
    let x = unit_at(dim, j);
    let places = pair.primary.places();
    let s = ar.times(pair.stats.sigma1, pair.stats.sigma1);
    let cross = pair.cross_at_zero(ar);
    let w = choose|w: Seq<Double>| #[trigger]
        solution(ar, m, b, w) && e == pair.weighted(ar, nb, secondary, w, b);
    closed(ar, c, num(0), num(ONE));
    closed(ar, c, pair.stats.sigma1, pair.stats.sigma1);
    closed(ar, c, s, num(0));
    closed(ar, c, pair.stats.rho12, pair.stats.sigma1);
    closed(ar, c, ar.times(pair.stats.rho12, pair.stats.sigma1), pair.stats.sigma2);
    closed(ar, c, cross, num(0));
    let zero = no_separation(D as nat);
    assert(ar.separation(target@, target@) =~= zero) by {
        assert forall|d: int| 0 <= d < D implies ar.separation(target@, target@)[d] == zero[d] by {
            assert(c(target@[d]));
            lemma_differences(ar, c, target@[d]);
        }
    }
    lemma_over_itself(ar, c, pair.model1.sill);
    if let MarkovModel::Mm2 { secondary_model } = pair.markov {
        lemma_over_itself(ar, c, secondary_model.sill);
    }
    assert(pair.shape(ar, zero) == num(ONE));
    assert(pair.c11_at(ar, zero) == s);
    assert(pair.c12_at(ar, zero) == cross);
    assert forall|r: int| 0 <= r < dim implies b[r] == applied(ar, m, x)[r] && c(b[r]) by {
        assert(m[r].len() == m.len() && all_numbers(c, m[r]));
        lemma_unit_picks(ar, c, m[r], dim, j, dim as int);
        assert(m[r][j] == pair.lhs_cell(ar, nb, target@, r, j));
        assert(c(m[r][j]));
        if r < n && r != j {
            let p = places[nb[r] as int]@;
            assert(b[r] == pair.c11_at(ar, ar.separation(p, target@)));
            if r < j {
                assert(ordered_gap(ar, places, nb, r, j) == ar.separation(p, target@));
            } else {
                assert(ordered_gap(ar, places, nb, r, j) == ar.separation(target@, p));
            }
        }
    }
    assert(b =~= applied(ar, m, x));
    assert(all_numbers(c, x));
    elimination_finds_the_solution(ar, c, m, b, x, w);
    // The value.
    let mean = pair.stats.mean1;
    let dev = pair.deviations(ar, nb);
    let value = pair.primary.attributes()[nb[j] as int];
    closed(ar, c, secondary, pair.stats.mean2);
    closed(ar, c, ar.minus(secondary, pair.stats.mean2), num(0));
    closed(ar, c, mean, num(0));
    lemma_unit_dot(ar, c, mean, dev, dim, j, n);
    closed(ar, c, value, mean);
    closed(ar, c, ar.minus(value, mean), mean);
    // The variance.
    assert(all_numbers(c, b));
    lemma_unit_dot(ar, c, num(0), b, dim, j, n);
    lemma_differences(ar, c, s);
}

/// `pair` and `s` work on the same data with the same model: `s` krigs them simply, with
/// the mean of the primary, and the secondary is not correlated with them.
pub open spec fn leaves_simple<'a, 'b, const D: usize, F: Fn(Op, Double, Double) -> Double, G: Fn([Double; D]) -> Double, H: Fn([Double; D]) -> Double>(
    pair: &Pairing<'a, D, G>,
    s: &Setting<'b, D, H>,
    ar: Arithmetic<F>,
) -> bool {
    &&& pair.stats.rho12 == num(0)
    &&& pair.primary.places() == s.data.places()
    &&& pair.primary.attributes() == s.data.attributes()
    &&& s.config.method == (KrigingMethod::Simple { mean: pair.stats.mean1 })
    &&& s.measurement_error@.len() == 0
    &&& !s.model.traits.has_power
    &&& pair.model1.sill == s.model.sill
    &&& forall|h: Seq<Double>| #[trigger] pair.model1.covariance(ar, h) == s.model.remaining(ar, h)
}

/// Multiples of a row make multiples of what it makes.
pub(crate) proof fn lemma_span_scaled<F: Fn(Op, Double, Double) -> Double>(
    ar: Arithmetic<F>,
    c: Numbers,
    k: Double,
    row: Seq<Double>,
    scaled: Seq<Double>,
    x: Seq<Double>,
    hi: int,
)
    requires
        exact(ar, c),
        c(k),
        all_numbers(c, row),
        all_numbers(c, x),
        0 <= hi <= row.len(),
        hi <= x.len(),
        forall|i: int| 0 <= i < hi ==> #[trigger] scaled[i] == ar.times(k, row[i]),
    ensures
        span_sum(ar, scaled, x, 0, hi) == ar.times(k, span_sum(ar, row, x, 0, hi)),
    decreases hi,
{
    closed(ar, c, k, k);
    if hi > 0 {
        lemma_span_scaled(ar, c, k, row, scaled, x, hi - 1);
        crate::exact::lemma_span_closed(ar, c, row, x, 0, hi - 1);
        assert(c(row[hi - 1]) && c(x[hi - 1]));
        assert(scaled[hi - 1] == ar.times(k, row[hi - 1]));
        closed(ar, c, row[hi - 1], x[hi - 1]);
        times_associates(ar, c, k, row[hi - 1], x[hi - 1]);
        crate::exact::distributes(
            ar,
            c,
            k,
            span_sum(ar, row, x, 0, hi - 1),
            ar.times(row[hi - 1], x[hi - 1]),
        );
    }
}

/// `s (a / t) == (s / t) a`.
proof fn lemma_ratio_moves<F: Fn(Op, Double, Double) -> Double>(
    ar: Arithmetic<F>,
    c: Numbers,
    s: Double,
    a: Double,
    t: Double,
)
    requires
        exact(ar, c),
        c(s),
        c(a),
        c(t),
        t != num(0),
    ensures
        ar.times(s, ar.over(a, t)) == ar.times(ar.over(s, t), a),
        c(ar.over(s, t)),
        c(ar.times(s, ar.over(a, t))),
{
    closed(ar, c, a, t);
    closed(ar, c, s, t);
    let q = ar.over(a, t);
    let k = ar.over(s, t);
    closed(ar, c, s, q);
    closed(ar, c, k, a);
    times_associates(ar, c, s, q, t);
    times_associates(ar, c, k, a, t);
    times_associates(ar, c, k, t, a);
    closed(ar, c, a, t);
    closed(ar, c, s, a);
    times_cancels(ar, c, ar.times(s, q), ar.times(k, a), t);
}

/// Without correlation, collocated cokriging is simple kriging of the primary: the same
/// value whatever the secondary value is, and the same variance where the standard
/// deviation of the primary is that of its model.
pub proof fn uncorrelated_secondary_leaves_simple_kriging<'a, 'b, const D: usize, F: Fn(Op, Double, Double) -> Double, G: Fn([Double; D]) -> Double, H: Fn([Double; D]) -> Double>(
    pair: &Pairing<'a, D, G>,
    s: &Setting<'b, D, H>,
    ar: Arithmetic<F>,
    c: Numbers,
    nb: Seq<usize>,
    target: [Double; D],
    secondary: Double,
    e: KrigingEstimate,
    f: KrigingEstimate,
)
    requires
        leaves_simple(pair, s, ar),
        collocates_in(pair, ar, c, nb, target@, secondary),
        computes_in(s, ar, c, nb),
        all_numbers(c, s.rhs(ar, nb, target@, Seq::empty())),
        forall|i: int|
            0 <= i < nb.len() ==> c(
                pair.shape(
                    ar,
                    ar.separation((#[trigger] pair.primary.places()[nb[i] as int])@, target@),
                ),
            ),
        pair.kriged(ar, target, secondary, nb, Ok(e)),
        s.kriged(ar, target, Seq::empty(), nb, Ok(f)),
    ensures
        e.value == f.value,
        ar.times(pair.stats.sigma1, pair.stats.sigma1) == s.model.sill ==> e.variance == f.variance,
{
    let n = nb.len() as int;
    let m = pair.lhs(ar, nb, target@);
    let b = pair.rhs(ar, nb, target@);
    let a = s.lhs(ar, nb);
    let g = s.rhs(ar, nb, target@, Seq::empty());
    let places = pair.primary.places();
    let sill = s.model.sill;
    let square = ar.times(pair.stats.sigma1, pair.stats.sigma1);
    let cross = pair.cross_at_zero(ar);
    let k = ar.over(square, sill);
    let zero = no_separation(D as nat);
    let w = choose|w: Seq<Double>| #[trigger]
        solution(ar, m, b, w) && e == pair.weighted(ar, nb, secondary, w, b);
    let v = choose|v: Seq<Double>| #[trigger]
        solution(ar, a, g, v) && f == s.weighted(ar, nb, v, g, s.top());
    elimination_satisfies_the_system(ar, c, a, g, v);
    let x = v.push(num(0));
    closed(ar, c, num(0), num(ONE));
    closed(ar, c, pair.stats.sigma1, pair.stats.sigma1);
    closed(ar, c, pair.stats.sigma1, num(0));
    closed(ar, c, pair.stats.sigma2, num(0));
    assert(cross == num(0));
    closed(ar, c, square, sill);
    closed(ar, c, square, num(0));
    closed(ar, c, k, k);
    assert forall|i: int| 0 <= i < x.len() implies c(#[trigger] x[i]) by {
        if i < n {
            assert(c(v[i]));
        }
    }
    assert forall|i: int| 0 <= i < n implies pair.c12_at(
        ar,
        ar.separation((#[trigger] places[nb[i] as int])@, target@),
    ) == num(0) by {
        let h = pair.shape(ar, ar.separation(places[nb[i] as int]@, target@));
        closed(ar, c, h, num(0));
    }
    // The model where points do not differ.
    assert(pair.model1.covariance(ar, zero) == s.model.remaining(ar, zero));
    closed(ar, c, sill, num(0));
    assert forall|r: int| 0 <= r <= n implies b[r] == applied(ar, m, x)[r] by {
        let row = m[r];
        assert(row.len() == m.len() && all_numbers(c, row));
        lemma_zero_weights(ar, c, row, x, n, n + 1);
        lemma_span_agrees(ar, row, row, x, v, 0, n);
        if r < n {
            assert(a[r].len() == a.len() && all_numbers(c, a[r]));
            assert forall|i: int| 0 <= i < n implies #[trigger] row[i] == ar.times(k, a[r][i]) by {
                assert(row[i] == pair.lhs_cell(ar, nb, target@, r, i));
                assert(a[r][i] == s.lhs_cell(ar, nb, r, i));
                assert(c(a[r][i]));
                if r == i {
                    assert(s.error_at(nb[r] as int) == num(0));
                    assert(a[r][i] == sill);
                } else {
                    let h = ordered_gap(ar, places, nb, r, i);
                    assert(s.gap(ar, nb, r, i) == h);
                    assert(pair.model1.covariance(ar, h) == s.model.remaining(ar, h));
                    lemma_ratio_moves(ar, c, square, a[r][i], sill);
                }
            }
            lemma_span_scaled(ar, c, k, a[r], row, v, n);
            assert(applied(ar, a, v)[r] == g[r]);
            lemma_side_scaled(pair, s, ar, c, nb, target, r);
        } else {
            assert forall|i: int| 0 <= i < n implies #[trigger] row[i] == num(0) by {
                assert(row[i] == pair.lhs_cell(ar, nb, target@, r, i));
                assert(pair.c12_at(ar, ar.separation(places[nb[i] as int]@, target@)) == num(0));
            }
            lemma_zero_row(ar, c, row, v, n);
        }
    }
    assert(b =~= applied(ar, m, x));
    elimination_finds_the_solution(ar, c, m, b, x, w);
    // The value.
    let mean = pair.stats.mean1;
    let dev = pair.deviations(ar, nb);
    assert(dev =~= s.centered_at(ar, nb, mean));
    closed(ar, c, secondary, pair.stats.mean2);
    closed(ar, c, ar.minus(secondary, pair.stats.mean2), num(0));
    closed(ar, c, mean, num(0));
    lemma_dot_agrees(ar, mean, x, v, dev, n);
    // The variance.
    if square == sill {
        lemma_over_itself(ar, c, sill);
        assert forall|r: int| 0 <= r < n implies b[r] == g[r] by {
            lemma_side_scaled(pair, s, ar, c, nb, target, r);
            assert(c(g[r]));
            closed(ar, c, g[r], num(ONE));
        }
        lemma_products_agree(ar, num(0), x, b, v, g, n);
    }
}

/// A right-hand side of collocated cokriging is a multiple of that of simple kriging.
proof fn lemma_side_scaled<'a, 'b, const D: usize, F: Fn(Op, Double, Double) -> Double, G: Fn([Double; D]) -> Double, H: Fn([Double; D]) -> Double>(
    pair: &Pairing<'a, D, G>,
    s: &Setting<'b, D, H>,
    ar: Arithmetic<F>,
    c: Numbers,
    nb: Seq<usize>,
    target: [Double; D],
    r: int,
)
    requires
        leaves_simple(pair, s, ar),
        exact(ar, c),
        c(pair.stats.sigma1),
        c(s.model.sill),
        s.model.sill != num(0),
        all_numbers(c, s.rhs(ar, nb, target@, Seq::empty())),
        0 <= r < nb.len(),
    ensures
        pair.rhs(ar, nb, target@)[r] == ar.times(
            ar.over(ar.times(pair.stats.sigma1, pair.stats.sigma1), s.model.sill),
            s.rhs(ar, nb, target@, Seq::empty())[r],
        ),
{
    let g = s.rhs(ar, nb, target@, Seq::empty());
    let h = ar.separation(pair.primary.places()[nb[r] as int]@, target@);
    assert(c(g[r]));
    assert(pair.model1.covariance(ar, h) == s.model.remaining(ar, h));
    closed(ar, c, pair.stats.sigma1, pair.stats.sigma1);
    lemma_ratio_moves(
        ar,
        c,
        ar.times(pair.stats.sigma1, pair.stats.sigma1),
        g[r],
        s.model.sill,
    );
}

proof fn lemma_products_agree<F: Fn(Op, Double, Double) -> Double>(
    ar: Arithmetic<F>,
    start: Double,
    a: Seq<Double>,
    b: Seq<Double>,
    x: Seq<Double>,
    y: Seq<Double>,
    n: int,
)
    requires
        forall|i: int| 0 <= i < n ==> #[trigger] a[i] == x[i],
        forall|i: int| 0 <= i < n ==> #[trigger] b[i] == y[i],
    ensures
        ar.dot_from(start, a, b, n) == ar.dot_from(start, x, y, n),
    decreases n,
{
    if n > 0 {
        lemma_products_agree(ar, start, a, b, x, y, n - 1);
        assert(a[n - 1] == x[n - 1]);
        assert(b[n - 1] == y[n - 1]);
    }
}

/// A multiple of the correlation, times the sill, is that multiple of the covariance.
proof fn lemma_correlogram_scales<const D: usize, F: Fn(Op, Double, Double) -> Double, G: Fn([Double; D]) -> Double>(
    ar: Arithmetic<F>,
    c: Numbers,
    cross: Double,
    model: Covariance<D, G>,
    h: Seq<Double>,
)
    requires
        exact(ar, c),
        c(cross),
        c(model.sill),
        model.sill != num(0),
        c(model.covariance(ar, h)),
    ensures
        ar.times(ar.times(cross, ar.over(model.covariance(ar, h), model.sill)), model.sill)
            == ar.times(cross, model.covariance(ar, h)),
{
    let (a, t) = (model.covariance(ar, h), model.sill);
    closed(ar, c, a, t);
    times_associates(ar, c, cross, ar.over(a, t), t);
}

/// Under the first Markov model the cross-covariance has the shape of the primary: times
/// the primary's sill it is correlation and standard deviations times the primary's
/// covariance. The secondary takes no part in the shape.
pub proof fn first_markov_model_follows_the_primary<'a, const D: usize, F: Fn(Op, Double, Double) -> Double, G: Fn([Double; D]) -> Double>(
    pair: &Pairing<'a, D, G>,
    ar: Arithmetic<F>,
    c: Numbers,
    h: Seq<Double>,
)
    requires
        exact(ar, c),
        pair.markov is Mm1,
        pair.model1.covariance is None,
        c(pair.stats.rho12),
        c(pair.stats.sigma1),
        c(pair.stats.sigma2),
        c(pair.model1.sill),
        pair.model1.sill != num(0),
        c(pair.model1.semivariance(h)),
    ensures
        ar.times(pair.c12_at(ar, h), pair.model1.sill) == ar.times(
            ar.times(ar.times(pair.stats.rho12, pair.stats.sigma1), pair.stats.sigma2),
            ar.minus(pair.model1.sill, pair.model1.semivariance(h)),
        ),
{
    closed(ar, c, pair.stats.rho12, pair.stats.sigma1);
    closed(ar, c, ar.times(pair.stats.rho12, pair.stats.sigma1), pair.stats.sigma2);
    closed(ar, c, pair.model1.sill, pair.model1.semivariance(h));
    lemma_correlogram_scales(ar, c, pair.cross_at_zero(ar), *pair.model1, h);
}

/// Under the second Markov model the cross-covariance has the shape of the secondary:
/// times the secondary's sill it is correlation and standard deviations times the
/// secondary's covariance. The primary's model takes no part in it.
pub proof fn second_markov_model_follows_the_secondary<'a, const D: usize, F: Fn(Op, Double, Double) -> Double, G: Fn([Double; D]) -> Double>(
    pair: &Pairing<'a, D, G>,
    model2: Covariance<D, G>,
    ar: Arithmetic<F>,
    c: Numbers,
    h: Seq<Double>,
)
    requires
        exact(ar, c),
        pair.markov == (MarkovModel::Mm2 { secondary_model: model2 }),
        model2.covariance is None,
        c(pair.stats.rho12),
        c(pair.stats.sigma1),
        c(pair.stats.sigma2),
        c(model2.sill),
        model2.sill != num(0),
        c(model2.semivariance(h)),
    ensures
        ar.times(pair.c12_at(ar, h), model2.sill) == ar.times(
            ar.times(ar.times(pair.stats.rho12, pair.stats.sigma1), pair.stats.sigma2),
            ar.minus(model2.sill, model2.semivariance(h)),
        ),
{
    closed(ar, c, pair.stats.rho12, pair.stats.sigma1);
    closed(ar, c, ar.times(pair.stats.rho12, pair.stats.sigma1), pair.stats.sigma2);
    closed(ar, c, model2.sill, model2.semivariance(h));
    lemma_correlogram_scales(ar, c, pair.cross_at_zero(ar), model2, h);
}

/// Under the second Markov model the secondary's model matters: where the variables are
/// correlated, predictors that differ in it so that its correlation at a separation
/// differs, differ in the cross-covariance there.
pub proof fn second_markov_model_tells_secondaries_apart<'a, 'b, const D: usize, F: Fn(Op, Double, Double) -> Double, G: Fn([Double; D]) -> Double>(
    a: &Pairing<'a, D, G>,
    b: &Pairing<'b, D, G>,
    model_a: Covariance<D, G>,
    model_b: Covariance<D, G>,
    ar: Arithmetic<F>,
    c: Numbers,
    h: Seq<Double>,
)
    requires
        exact(ar, c),
        a.markov == (MarkovModel::Mm2 { secondary_model: model_a }),
        b.markov == (MarkovModel::Mm2 { secondary_model: model_b }),
        a.stats == b.stats,
        model_a.covariance is None,
        model_b.covariance is None,
        c(a.stats.rho12) && c(a.stats.sigma1) && c(a.stats.sigma2),
        a.stats.rho12 != num(0) && a.stats.sigma1 != num(0) && a.stats.sigma2 != num(0),
        c(model_a.sill) && model_a.sill != num(0) && c(model_a.semivariance(h)),
        c(model_b.sill) && model_b.sill != num(0) && c(model_b.semivariance(h)),
        ar.over(ar.minus(model_a.sill, model_a.semivariance(h)), model_a.sill) != ar.over(
            ar.minus(model_b.sill, model_b.semivariance(h)),
            model_b.sill,
        ),
    ensures
        a.c12_at(ar, h) != b.c12_at(ar, h),
{
    let s = a.stats;
    lemma_product_not_zero(ar, c, s.rho12, s.sigma1);
    lemma_product_not_zero(ar, c, ar.times(s.rho12, s.sigma1), s.sigma2);
    let cross = a.cross_at_zero(ar);
    closed(ar, c, model_a.sill, model_a.semivariance(h));
    closed(ar, c, model_b.sill, model_b.semivariance(h));
    let p = ar.minus(model_a.sill, model_a.semivariance(h));
    let q = ar.minus(model_b.sill, model_b.semivariance(h));
    closed(ar, c, p, model_a.sill);
    closed(ar, c, q, model_b.sill);
    let (x, y) = (ar.over(p, model_a.sill), ar.over(q, model_b.sill));
    closed(ar, c, cross, x);
    closed(ar, c, cross, y);
    if ar.times(cross, x) == ar.times(cross, y) {
        times_cancels(ar, c, x, y, cross);
    }
}

} // verus!

//! The equations that estimates satisfy, over an arithmetic without rounding, stated of
//! places, values, semivariances and sills: every kind of kriging balances the covariances
//! of its conditioning points against those with the target.

use vstd::prelude::*;

use crate::arith::{num, Arithmetic, Op};
use crate::cokriging::{CoSetting, Member};
use crate::collocated::{MarkovModel, Pairing};
use crate::covariance::{no_separation, Covariance};
use crate::double::{Double, ONE};
use crate::exact::{
    all_numbers, applied, closed, elimination_satisfies_the_system, exact, lemma_dot_start,
    lemma_span_agrees, lemma_span_closed, span_sum, square_of, Numbers,
};
use crate::exact_definite::{factor_satisfies_the_system, roots_exact, symmetric_of};
use crate::exact_kriging::{lemma_dot_is_span, symmetric};
use crate::indicator::{
    ik_estimate, ik_weights, oik_matrix, soft_estimate, soft_matrix, soft_rhs, soft_weights,
    MarkovBayesCalibration, LEAST_SILL,
};
use crate::kriging::{block_gap, KrigingEstimate, KrigingMethod, Setting};
use crate::linalg::{entry, row_of, solution};
use crate::simple::{sk_cell, sk_estimate, sk_matrix, sk_rhs, sk_weights, STABILIZER};

verus! {

/// Semivariances and sill of a model are numbers, and the semivariance does not depend on
/// the direction.
pub open spec fn numeric<const D: usize, F: Fn(Op, Double, Double) -> Double, G: Fn([Double; D]) -> Double>(
    ar: Arithmetic<F>,
    c: Numbers,
    model: Covariance<D, G>,
) -> bool {
    &&& exact(ar, c)
    &&& symmetric(ar, model)
    &&& c(model.sill)
    &&& forall|h: Seq<Double>| c(#[trigger] model.semivariance(h))
    &&& !model.traits.has_power
}

/// Covariance of a model between two places: what the semivariance leaves of the sill.
pub open spec fn cov<const D: usize, F: Fn(Op, Double, Double) -> Double, G: Fn([Double; D]) -> Double>(
    ar: Arithmetic<F>,
    model: Covariance<D, G>,
    p: Seq<Double>,
    q: Seq<Double>,
) -> Double {
    ar.minus(model.sill, model.semivariance(ar.separation(p, q)))
}

/// Covariances of the places with one of them, `own` with itself.
pub open spec fn covs_with<const D: usize, F: Fn(Op, Double, Double) -> Double, G: Fn([Double; D]) -> Double>(
    ar: Arithmetic<F>,
    model: Covariance<D, G>,
    places: Seq<Seq<Double>>,
    i: int,
    own: Double,
) -> Seq<Double> {
    Seq::new(
        places.len(),
        |j: int|
            if i == j {
                own
            } else {
                cov(ar, model, places[i], places[j])
            },
    )
}

/// Covariances of the places with a target.
pub open spec fn covs_to<const D: usize, F: Fn(Op, Double, Double) -> Double, G: Fn([Double; D]) -> Double>(
    ar: Arithmetic<F>,
    model: Covariance<D, G>,
    places: Seq<Seq<Double>>,
    target: Seq<Double>,
) -> Seq<Double> {
    Seq::new(places.len(), |i: int| cov(ar, model, places[i], target))
}

/// The places of the conditioning points.
pub open spec fn chosen<const D: usize>(places: Seq<[Double; D]>, nb: Seq<usize>) -> Seq<Seq<Double>> {
    Seq::new(nb.len(), |i: int| places[nb[i] as int]@)
}

/// The elements at positions.
pub open spec fn picked(values: Seq<Double>, nb: Seq<usize>) -> Seq<Double> {
    Seq::new(nb.len(), |i: int| values[nb[i] as int])
}

/// The elements, each less `m`.
pub open spec fn less<F: Fn(Op, Double, Double) -> Double>(ar: Arithmetic<F>, xs: Seq<Double>, m: Double) -> Seq<Double> {
    Seq::new(xs.len(), |i: int| ar.minus(xs[i], m))
}

/// As many ones.
pub open spec fn ones(n: nat) -> Seq<Double> {
    Seq::new(n, |i: int| num(ONE))
}

/// Element `i`, zero where there is none.
pub open spec fn or_zero(xs: Seq<Double>, i: int) -> Double {
    if i < xs.len() {
        xs[i]
    } else {
        num(0)
    }
}

proof fn lemma_covariance<const D: usize, F: Fn(Op, Double, Double) -> Double, G: Fn([Double; D]) -> Double>(
    ar: Arithmetic<F>,
    c: Numbers,
    model: Covariance<D, G>,
    h: Seq<Double>,
)
    requires
        numeric(ar, c, model),
    ensures
        c(ar.minus(model.sill, model.semivariance(h))),
{
    closed(ar, c, model.sill, model.semivariance(h));
}

/// Kriging balances covariances: the weights of simple and ordinary kriging satisfy, for
/// every conditioning point, that the weighted covariances with the others (its
/// measurement error added to its own), and the multiplier of ordinary kriging, make up
/// the covariance with the target. Ordinary weights sum to one. The estimate is the
/// weighted values, or their deviations from the mean for simple kriging, and the variance
/// is what the weighted covariances and the multiplier leave of the sill.
pub proof fn kriging_balances_covariances<'a, const D: usize, F: Fn(Op, Double, Double) -> Double, G: Fn([Double; D]) -> Double>(
    s: &Setting<'a, D, G>,
    ar: Arithmetic<F>,
    c: Numbers,
    nb: Seq<usize>,
    target: [Double; D],
    e: KrigingEstimate,
)
    requires
        numeric(ar, c, *s.model),
        s.config.method is Simple || s.config.method is Ordinary,
        s.config.method matches KrigingMethod::Simple { mean } ==> c(mean),
        nb.len() < usize::MAX,
        all_numbers(c, picked(s.data.attributes(), nb)),
        all_numbers(c, s.measurement_error@),
        s.kriged(ar, target, Seq::empty(), nb, Ok(e)),
    ensures
        exists|w: Seq<Double>| #[trigger]
            all_numbers(c, w) && w.len() == nb.len() + 1 && ({
                let n = nb.len() as int;
                let sill = s.model.sill;
                let places = chosen(s.data.places(), nb);
                let values = picked(s.data.attributes(), nb);
                let near = covs_to(ar, *s.model, places, target@);
                &&& forall|i: int|
                    0 <= i < n ==> ar.plus(
                        span_sum(
                            ar,
                            covs_with(
                                ar,
                                *s.model,
                                places,
                                i,
                                ar.plus(sill, or_zero(s.measurement_error@, nb[i] as int)),
                            ),
                            w,
                            0,
                            n,
                        ),
                        w[n],
                    ) == #[trigger] near[i]
                &&& match s.config.method {
                    KrigingMethod::Simple { mean } => {
                        &&& w[n] == num(0)
                        &&& e.value == ar.plus(mean, span_sum(ar, less(ar, values, mean), w, 0, n))
                        &&& e.variance == ar.minus(sill, span_sum(ar, near, w, 0, n)).max(num(0))
                        &&& e.lagrange is None
                    },
                    _ => {
                        &&& span_sum(ar, ones(nb.len()), w, 0, n) == num(ONE)
                        &&& e.value == span_sum(ar, values, w, 0, n)
                        &&& e.variance == ar.minus(
                            sill,
                            ar.plus(span_sum(ar, near, w, 0, n), w[n]),
                        ).max(num(0))
                        &&& e.lagrange == Some(w[n])
                    },
                }
            }),
{
    let n = nb.len() as int;
    let sill = s.model.sill;
    let m = s.lhs(ar, nb);
    let b = s.rhs(ar, nb, target@, Seq::empty());
    let zero = no_separation(D as nat);
    let simple = s.config.method is Simple;
    closed(ar, c, num(0), num(ONE));
    crate::exact_kriging::lemma_differences(ar, c, sill);
    assert forall|h: Seq<Double>| c(#[trigger] s.model.entry(ar, h)) by {
        lemma_covariance(ar, c, *s.model, h);
    }
    assert(s.model.entry(ar, zero) == sill);
    assert forall|i: int| 0 <= i < n implies c(#[trigger] s.error_at(nb[i] as int)) by {
        if nb[i] < s.measurement_error@.len() {
            assert(c(s.measurement_error@[nb[i] as int]));
        }
    }
    assert forall|r: int| 0 <= r < m.len() implies (#[trigger] m[r]).len() == m.len()
        && all_numbers(c, m[r]) by {
        assert forall|k: int| 0 <= k < m[r].len() implies c(#[trigger] m[r][k]) by {
            assert(m[r][k] == s.lhs_cell(ar, nb, r, k));
            if r < n && k < n {
                if r == k {
                    closed(ar, c, sill, s.error_at(nb[r] as int));
                } else {
                    assert(c(s.model.entry(ar, s.gap(ar, nb, r, k))));
                }
            }
        }
    }
    let places = chosen(s.data.places(), nb);
    let values = picked(s.data.attributes(), nb);
    let near = covs_to(ar, *s.model, places, target@);
    assert forall|r: int| 0 <= r < b.len() implies c(#[trigger] b[r]) by {
        if r < n {
            assert(c(s.model.entry(ar, ar.separation(places[r], target@))));
        }
    }
    let v = choose|v: Seq<Double>| #[trigger]
        solution(ar, m, b, v) && e == s.weighted(ar, nb, v, b, s.top());
    elimination_satisfies_the_system(ar, c, m, b, v);
    assert(v.len() == m.len());
    let w = if simple {
        v.push(num(0))
    } else {
        v
    };
    assert forall|i: int| 0 <= i < w.len() implies c(#[trigger] w[i]) by {
        if i < v.len() {
            assert(c(v[i]));
        }
    }
    assert(values =~= s.values_at(nb));
    assert forall|i: int| 0 <= i < n implies #[trigger] near[i] == b[i] && c(near[i]) by {
        assert(c(b[i]));
    }
    assert(all_numbers(c, near));
    assert forall|i: int| 0 <= i < n implies ar.plus(
        span_sum(
            ar,
            covs_with(
                ar,
                *s.model,
                places,
                i,
                ar.plus(sill, or_zero(s.measurement_error@, nb[i] as int)),
            ),
            w,
            0,
            n,
        ),
        w[n],
    ) == #[trigger] near[i] by {
        let row = covs_with(
            ar,
            *s.model,
            places,
            i,
            ar.plus(sill, or_zero(s.measurement_error@, nb[i] as int)),
        );
        assert forall|j: int| 0 <= j < n implies #[trigger] row[j] == m[i][j] by {
            assert(m[i][j] == s.lhs_cell(ar, nb, i, j));
            let (p, q) = (places[i], places[j]);
            assert(s.model.semivariance(ar.separation(p, q)) == s.model.semivariance(
                ar.separation(q, p),
            ));
        }
        assert(m[i].len() == m.len() && all_numbers(c, m[i]));
        assert(b[i] == applied(ar, m, v)[i]);
        lemma_span_agrees(ar, row, m[i], w, v, 0, n);
        lemma_span_closed(ar, c, m[i], v, 0, n);
        closed(ar, c, span_sum(ar, m[i], v, 0, n), num(0));
        if !simple {
            assert(m[i][n] == s.lhs_cell(ar, nb, i, n));
            assert(c(v[n]));
            closed(ar, c, v[n], num(ONE));
        }
    }
    lemma_span_agrees(ar, near, b, w, v, 0, n);
    lemma_span_closed(ar, c, b, v, 0, n);
    let reduction = span_sum(ar, b, v, 0, n);
    closed(ar, c, num(0), reduction);
    closed(ar, c, reduction, num(0));
    if let KrigingMethod::Simple { mean } = s.config.method {
        let centered = s.centered_at(ar, nb, mean);
        let inline = less(ar, values, mean);
        assert(centered =~= inline);
        assert forall|i: int| 0 <= i < centered.len() implies c(#[trigger] centered[i]) by {
            assert(c(values[i]));
            closed(ar, c, values[i], mean);
        }
        lemma_dot_is_span(ar, c, mean, v, centered, n);
        lemma_dot_is_span(ar, c, num(0), v, b, n);
        lemma_span_agrees(ar, inline, centered, w, v, 0, n);
    } else {
        let sums = ones(nb.len());
        assert(m[n].len() == m.len() && all_numbers(c, m[n]));
        assert forall|j: int| 0 <= j < n implies #[trigger] sums[j] == m[n][j] by {
            assert(m[n][j] == s.lhs_cell(ar, nb, n, j));
        }
        lemma_span_agrees(ar, sums, m[n], v, v, 0, n);
        assert(b[n] == applied(ar, m, v)[n]);
        assert(m[n][n] == s.lhs_cell(ar, nb, n, n));
        lemma_span_closed(ar, c, m[n], v, 0, n);
        assert(c(v[n]));
        closed(ar, c, v[n], num(0));
        closed(ar, c, v[n], num(ONE));
        closed(ar, c, span_sum(ar, m[n], v, 0, n), num(0));
        assert(nb.len() >= s.terms());
        lemma_dot_start(ar, c, v, values, n);
        lemma_dot_is_span(ar, c, num(0), v, values, n);
        lemma_span_closed(ar, c, values, v, 0, n);
        closed(ar, c, span_sum(ar, values, v, 0, n), num(0));
        lemma_dot_start(ar, c, v, b, n + 1);
        lemma_dot_is_span(ar, c, num(0), v, b, n + 1);
        closed(ar, c, reduction, v[n]);
        closed(ar, c, ar.plus(reduction, v[n]), num(0));
        assert(span_sum(ar, b, v, 0, n + 1) == ar.plus(reduction, ar.times(b[n], v[n])));
        assert(b[n] == num(ONE));
    }
    assert(all_numbers(c, w) && w.len() == nb.len() + 1);
}

/// A row of a system whose last unknown stands apart.
proof fn lemma_row<F: Fn(Op, Double, Double) -> Double>(
    ar: Arithmetic<F>,
    c: Numbers,
    m: Seq<Seq<Double>>,
    b: Seq<Double>,
    v: Seq<Double>,
    row: Seq<Double>,
    r: int,
    n: int,
)
    requires
        exact(ar, c),
        square_of(c, m),
        m.len() == n + 1,
        v.len() == m.len(),
        all_numbers(c, v),
        b == applied(ar, m, v),
        0 <= r <= n,
        forall|j: int| 0 <= j < n ==> #[trigger] row[j] == m[r][j],
    ensures
        ar.plus(span_sum(ar, row, v, 0, n), ar.times(m[r][n], v[n])) == b[r],
        c(m[r][n]),
        c(v[n]),
        c(span_sum(ar, row, v, 0, n)),
{
    assert(m[r].len() == m.len() && all_numbers(c, m[r]));
    lemma_span_agrees(ar, row, m[r], v, v, 0, n);
    lemma_span_closed(ar, c, m[r], v, 0, n);
    assert(c(m[r][n]) && c(v[n]));
    assert(b[r] == span_sum(ar, m[r], v, 0, n + 1));
}

/// Shape of the cross-covariance of collocated cokriging: the correlation of the primary
/// under the first Markov model, that of the secondary under the second.
pub open spec fn cross_shape<'a, const D: usize, F: Fn(Op, Double, Double) -> Double, G: Fn([Double; D]) -> Double>(
    ar: Arithmetic<F>,
    pair: &Pairing<'a, D, G>,
    p: Seq<Double>,
    q: Seq<Double>,
) -> Double {
    match pair.markov {
        MarkovModel::Mm1 => ar.over(cov(ar, *pair.model1, p, q), pair.model1.sill),
        MarkovModel::Mm2 { secondary_model } => ar.over(
            cov(ar, secondary_model, p, q),
            secondary_model.sill,
        ),
    }
}

/// Cross-covariances of the places with the target.
pub open spec fn cross_to<'a, const D: usize, F: Fn(Op, Double, Double) -> Double, G: Fn([Double; D]) -> Double>(
    ar: Arithmetic<F>,
    pair: &Pairing<'a, D, G>,
    places: Seq<Seq<Double>>,
    target: Seq<Double>,
) -> Seq<Double> {
    let st = pair.stats;
    Seq::new(
        places.len(),
        |i: int|
            ar.times(
                ar.times(ar.times(st.rho12, st.sigma1), st.sigma2),
                cross_shape(ar, pair, places[i], target),
            ),
    )
}

/// Covariances of the primary between the places, in units of its standard deviation;
/// `own` of a place with itself.
pub open spec fn scaled_covs<'a, const D: usize, F: Fn(Op, Double, Double) -> Double, G: Fn([Double; D]) -> Double>(
    ar: Arithmetic<F>,
    pair: &Pairing<'a, D, G>,
    places: Seq<Seq<Double>>,
    q: Seq<Double>,
) -> Seq<Double> {
    let square = ar.times(pair.stats.sigma1, pair.stats.sigma1);
    Seq::new(
        places.len(),
        |j: int|
            ar.times(square, ar.over(cov(ar, *pair.model1, q, places[j]), pair.model1.sill)),
    )
}

/// Collocated cokriging balances covariances: for every primary datum the weighted
/// covariances with the others, scaled to the standard deviation of the primary, and the
/// weighted cross-covariance make up the covariance with the target; the weighted
/// cross-covariances and the variance of the secondary, weighted, make up the covariance
/// of primary and secondary. The estimate adds the weighted deviations from the means.
pub proof fn collocated_cokriging_balances_covariances<'a, const D: usize, F: Fn(Op, Double, Double) -> Double, G: Fn([Double; D]) -> Double>(
    pair: &Pairing<'a, D, G>,
    ar: Arithmetic<F>,
    c: Numbers,
    nb: Seq<usize>,
    target: [Double; D],
    secondary: Double,
    e: KrigingEstimate,
)
    requires
        numeric(ar, c, *pair.model1),
        pair.model1.covariance is None,
        pair.model1.sill != num(0),
        pair.markov matches MarkovModel::Mm2 { secondary_model } ==> numeric(
            ar,
            c,
            secondary_model,
        ) && secondary_model.covariance is None && secondary_model.sill != num(0),
        nb.len() < usize::MAX,
        c(pair.stats.mean1) && c(pair.stats.mean2) && c(pair.stats.rho12),
        c(pair.stats.sigma1) && c(pair.stats.sigma2) && c(pair.config.ridge) && c(secondary),
        all_numbers(c, picked(pair.primary.attributes(), nb)),
        pair.kriged(ar, target, secondary, nb, Ok(e)),
    ensures
        exists|w: Seq<Double>| #[trigger]
            all_numbers(c, w) && w.len() == nb.len() + 1 && ({
                let n = nb.len() as int;
                let st = pair.stats;
                let places = chosen(pair.primary.places(), nb);
                let values = picked(pair.primary.attributes(), nb);
                let square = ar.times(st.sigma1, st.sigma1);
                let between = ar.times(ar.times(st.rho12, st.sigma1), st.sigma2);
                let cross = cross_to(ar, pair, places, target@);
                let near = scaled_covs(ar, pair, places, target@);
                &&& forall|i: int|
                    0 <= i < n ==> ar.plus(
                        span_sum(
                            ar,
                            scaled_covs(ar, pair, places, places[i]).update(
                                i,
                                ar.plus(square, pair.config.ridge),
                            ),
                            w,
                            0,
                            n,
                        ),
                        ar.times(cross[i], w[n]),
                    ) == #[trigger] near[i]
                &&& ar.plus(
                    span_sum(ar, cross, w, 0, n),
                    ar.times(
                        ar.plus(ar.times(st.sigma2, st.sigma2), pair.config.ridge),
                        w[n],
                    ),
                ) == between
                &&& e.value == ar.plus(
                    ar.plus(st.mean1, ar.times(w[n], ar.minus(secondary, st.mean2))),
                    span_sum(ar, less(ar, values, st.mean1), w, 0, n),
                )
                &&& e.variance == ar.minus(
                    square,
                    ar.plus(ar.times(w[n], between), span_sum(ar, near, w, 0, n)),
                ).max(num(0))
            }),
{
    let n = nb.len() as int;
    let st = pair.stats;
    let m = pair.lhs(ar, nb, target@);
    let b = pair.rhs(ar, nb, target@);
    let places = chosen(pair.primary.places(), nb);
    let values = picked(pair.primary.attributes(), nb);
    let square = ar.times(st.sigma1, st.sigma1);
    let between = ar.times(ar.times(st.rho12, st.sigma1), st.sigma2);
    let cross = cross_to(ar, pair, places, target@);
    let near = scaled_covs(ar, pair, places, target@);
    let model = *pair.model1;
    closed(ar, c, num(0), num(ONE));
    closed(ar, c, st.sigma1, st.sigma1);
    closed(ar, c, st.sigma2, st.sigma2);
    closed(ar, c, st.rho12, st.sigma1);
    closed(ar, c, ar.times(st.rho12, st.sigma1), st.sigma2);
    closed(ar, c, square, pair.config.ridge);
    closed(ar, c, ar.times(st.sigma2, st.sigma2), pair.config.ridge);
    assert forall|h: Seq<Double>| c(#[trigger] pair.c11_at(ar, h)) by {
        lemma_covariance(ar, c, model, h);
        closed(ar, c, model.covariance(ar, h), model.sill);
        closed(ar, c, square, ar.over(model.covariance(ar, h), model.sill));
    }
    assert forall|h: Seq<Double>| c(#[trigger] pair.c12_at(ar, h)) by {
        match pair.markov {
            MarkovModel::Mm1 => {
                lemma_covariance(ar, c, model, h);
                closed(ar, c, model.covariance(ar, h), model.sill);
            },
            MarkovModel::Mm2 { secondary_model } => {
                lemma_covariance(ar, c, secondary_model, h);
                closed(ar, c, secondary_model.covariance(ar, h), secondary_model.sill);
            },
        }
        closed(ar, c, between, pair.shape(ar, h));
    }
    assert forall|r: int| 0 <= r < m.len() implies (#[trigger] m[r]).len() == m.len()
        && all_numbers(c, m[r]) by {
        assert forall|k: int| 0 <= k < m[r].len() implies c(#[trigger] m[r][k]) by {
            assert(m[r][k] == pair.lhs_cell(ar, nb, target@, r, k));
            if r < n && k < n && r != k {
                assert(c(
                    pair.c11_at(
                        ar,
                        crate::covariance::ordered_gap(ar, pair.primary.places(), nb, r, k),
                    ),
                ));
            } else if r < n && k == n {
                assert(c(pair.c12_at(ar, ar.separation(places[r], target@))));
            } else if k < n && r == n {
                assert(c(pair.c12_at(ar, ar.separation(places[k], target@))));
            }
        }
    }
    assert forall|i: int| 0 <= i < n implies #[trigger] near[i] == b[i] && c(near[i])
        && cross[i] == pair.c12_at(ar, ar.separation(places[i], target@)) && c(cross[i]) by {
        let (p, q) = (places[i], target@);
        assert(model.semivariance(ar.separation(p, q)) == model.semivariance(
            ar.separation(q, p),
        ));
        assert(b[i] == pair.c11_at(ar, ar.separation(p, q)));
        assert(c(pair.c11_at(ar, ar.separation(p, q))));
        assert(c(pair.c12_at(ar, ar.separation(p, q))));
    }
    assert(all_numbers(c, near) && all_numbers(c, cross)) by {
        assert forall|i: int| 0 <= i < n implies c(#[trigger] cross[i]) by {
            assert(near[i] == b[i]);
        }
    }
    assert forall|r: int| 0 <= r < b.len() implies c(#[trigger] b[r]) by {
        if r < n {
            assert(near[r] == b[r]);
        }
    }
    let w = choose|w: Seq<Double>| #[trigger]
        solution(ar, m, b, w) && e == pair.weighted(ar, nb, secondary, w, b);
    elimination_satisfies_the_system(ar, c, m, b, w);
    assert(w.len() == m.len());
    assert forall|i: int| 0 <= i < n implies ar.plus(
        span_sum(
            ar,
            scaled_covs(ar, pair, places, places[i]).update(
                i,
                ar.plus(square, pair.config.ridge),
            ),
            w,
            0,
            n,
        ),
        ar.times(cross[i], w[n]),
    ) == #[trigger] near[i] by {
        let row = scaled_covs(ar, pair, places, places[i]).update(
            i,
            ar.plus(square, pair.config.ridge),
        );
        assert forall|j: int| 0 <= j < n implies #[trigger] row[j] == m[i][j] by {
            assert(m[i][j] == pair.lhs_cell(ar, nb, target@, i, j));
            let (p, q) = (places[i], places[j]);
            assert(model.semivariance(ar.separation(p, q)) == model.semivariance(
                ar.separation(q, p),
            ));
        }
        lemma_row(ar, c, m, b, w, row, i, n);
        assert(m[i][n] == pair.lhs_cell(ar, nb, target@, i, n));
    }
    assert forall|j: int| 0 <= j < n implies #[trigger] cross[j] == m[n][j] by {
        assert(m[n][j] == pair.lhs_cell(ar, nb, target@, n, j));
        assert(near[j] == b[j]);
    }
    lemma_row(ar, c, m, b, w, cross, n, n);
    assert(m[n][n] == pair.lhs_cell(ar, nb, target@, n, n));
    // The estimate.
    let dev = pair.deviations(ar, nb);
    assert(dev =~= less(ar, values, st.mean1));
    assert forall|i: int| 0 <= i < dev.len() implies c(#[trigger] dev[i]) by {
        assert(c(values[i]));
        closed(ar, c, values[i], st.mean1);
    }
    closed(ar, c, secondary, st.mean2);
    closed(ar, c, w[n], ar.minus(secondary, st.mean2));
    let start = ar.plus(st.mean1, ar.times(w[n], ar.minus(secondary, st.mean2)));
    closed(ar, c, st.mean1, ar.times(w[n], ar.minus(secondary, st.mean2)));
    lemma_dot_is_span(ar, c, start, w, dev, n);
    closed(ar, c, w[n], between);
    lemma_dot_is_span(ar, c, ar.times(w[n], between), w, b, n);
    lemma_span_agrees(ar, near, b, w, w, 0, n);
    assert(all_numbers(c, w) && w.len() == nb.len() + 1);
}

/// Simple kriging of a field with mean zero balances covariances: for every conditioning
/// point the weighted covariances, its own raised by a billionth of the sill, make up the
/// covariance with the target. The mean is the weighted values, and the variance what the
/// weighted covariances leave of the sill.
pub proof fn simple_kriging_balances_covariances<const D: usize, F: Fn(Op, Double, Double) -> Double, G: Fn([Double; D]) -> Double>(
    ar: Arithmetic<F>,
    c: Numbers,
    model: Covariance<D, G>,
    all: Seq<[Double; D]>,
    nb: Seq<usize>,
    values: Seq<Double>,
    target: Seq<Double>,
    mean: Double,
    variance: Double,
)
    requires
        numeric(ar, c, model),
        roots_exact(ar, c),
        c(num(STABILIZER)),
        target.len() == D,
        values.len() == nb.len(),
        all_numbers(c, values),
        sk_estimate(ar, model, all, nb, values, target, Ok((mean, variance))),
    ensures
        exists|w: Seq<Double>| #[trigger]
            all_numbers(c, w) && w.len() == nb.len() && ({
                let n = nb.len() as int;
                let places = chosen(all, nb);
                let near = covs_to(ar, model, places, target);
                let own = ar.plus(model.sill, ar.times(model.sill, num(STABILIZER)));
                &&& forall|i: int|
                    0 <= i < n ==> span_sum(
                        ar,
                        covs_with(ar, model, places, i, own),
                        w,
                        0,
                        n,
                    ) == #[trigger] near[i]
                &&& mean == span_sum(ar, values, w, 0, n)
                &&& variance == ar.minus(model.sill, span_sum(ar, near, w, 0, n)).max(num(0))
            }),
{
    let n = nb.len() as int;
    let r: Result<(Double, Double), crate::error::GeostatError> = Ok((mean, variance));
    let found = choose|w: Result<Seq<Double>, crate::error::GeostatError>| #[trigger]
        sk_weights(ar, model, all, nb, target, w) && match w {
            Err(e) => r == Err::<(Double, Double), crate::error::GeostatError>(e),
            Ok(w) => r == Ok::<(Double, Double), crate::error::GeostatError>(
                crate::simple::sk_moments(
                    ar,
                    model.sill,
                    w,
                    sk_rhs(ar, model, all, nb, target),
                    values,
                ),
            ),
        };
    let w = found->Ok_0;
    lemma_simple_weights(ar, c, model, all, nb, target, w);
    let places = chosen(all, nb);
    let near = covs_to(ar, model, places, target);
    let b = sk_rhs(ar, model, all, nb, target);
    assert(near =~= b);
    assert(all_numbers(c, near)) by {
        assert forall|i: int| 0 <= i < n implies c(#[trigger] near[i]) by {
            lemma_covariance(ar, c, model, ar.separation(places[i], target));
        }
    }
    closed(ar, c, num(0), num(0));
    lemma_dot_is_span(ar, c, num(0), w, values, n);
    lemma_dot_is_span(ar, c, num(0), w, b, n);
    lemma_span_closed(ar, c, values, w, 0, n);
    lemma_span_closed(ar, c, b, w, 0, n);
    closed(ar, c, span_sum(ar, values, w, 0, n), num(0));
    closed(ar, c, span_sum(ar, b, w, 0, n), num(0));
    assert(all_numbers(c, w) && w.len() == nb.len());
}

/// The weights of simple kriging.
proof fn lemma_simple_weights<const D: usize, F: Fn(Op, Double, Double) -> Double, G: Fn([Double; D]) -> Double>(
    ar: Arithmetic<F>,
    c: Numbers,
    model: Covariance<D, G>,
    all: Seq<[Double; D]>,
    nb: Seq<usize>,
    target: Seq<Double>,
    w: Seq<Double>,
)
    requires
        numeric(ar, c, model),
        roots_exact(ar, c),
        c(num(STABILIZER)),
        target.len() == D,
        sk_weights(ar, model, all, nb, target, Ok(w)),
    ensures
        all_numbers(c, w),
        w.len() == nb.len(),
        forall|i: int|
            0 <= i < nb.len() ==> span_sum(
                ar,
                covs_with(
                    ar,
                    model,
                    chosen(all, nb),
                    i,
                    ar.plus(model.sill, ar.times(model.sill, num(STABILIZER))),
                ),
                w,
                0,
                nb.len() as int,
            ) == #[trigger] covs_to(ar, model, chosen(all, nb), target)[i],
{
    let n = nb.len() as int;
    let a = sk_matrix(ar, model, all, nb);
    let b = sk_rhs(ar, model, all, nb, target);
    let places = chosen(all, nb);
    let own = ar.plus(model.sill, ar.times(model.sill, num(STABILIZER)));
    closed(ar, c, model.sill, num(STABILIZER));
    closed(ar, c, model.sill, ar.times(model.sill, num(STABILIZER)));
    assert forall|i: int, j: int| 0 <= i < n && 0 <= j < n implies #[trigger] entry(
        a,
        nb.len(),
        i,
        j,
    ) == covs_with(ar, model, places, i, own)[j] && c(entry(a, nb.len(), i, j)) by {
        vstd::arithmetic::div_mod::lemma_fundamental_div_mod_converse(i * n + j, n, i, j);
        assert(0 <= i * n + j < n * n) by (nonlinear_arith)
            requires
                0 <= i < n,
                0 <= j < n,
        ;
        assert(entry(a, nb.len(), i, j) == sk_cell(ar, model, all, nb, i, j));
        let (p, q) = (places[i], places[j]);
        assert(model.semivariance(ar.separation(p, q)) == model.semivariance(ar.separation(q, p)));
        lemma_covariance(ar, c, model, ar.separation(p, q));
    }
    assert(symmetric_of(c, a, nb.len())) by {
        assert forall|i: int, j: int| 0 <= i < n && 0 <= j < n implies c(
            #[trigger] entry(a, nb.len(), i, j),
        ) && entry(a, nb.len(), i, j) == entry(a, nb.len(), j, i) by {
            assert(entry(a, nb.len(), j, i) == covs_with(ar, model, places, j, own)[i]);
            let (p, q) = (places[i], places[j]);
            assert(model.semivariance(ar.separation(p, q)) == model.semivariance(
                ar.separation(q, p),
            ));
        }
    }
    assert(all_numbers(c, b)) by {
        assert forall|i: int| 0 <= i < n implies c(#[trigger] b[i]) by {
            lemma_covariance(ar, c, model, ar.separation(places[i], target));
        }
    }
    factor_satisfies_the_system(ar, c, a, nb.len(), b, w);
    assert forall|i: int| 0 <= i < n implies span_sum(
        ar,
        covs_with(ar, model, places, i, own),
        w,
        0,
        n,
    ) == #[trigger] covs_to(ar, model, places, target)[i] by {
        let row = row_of(a, nb.len(), i);
        let want = covs_with(ar, model, places, i, own);
        assert forall|j: int| 0 <= j < n implies #[trigger] row[j] == want[j] by {
            assert(entry(a, nb.len(), i, j) == want[j]);
        }
        lemma_span_agrees(ar, want, row, w, w, 0, n);
        assert(b[i] == span_sum(ar, row, w, 0, n));
    }
}

/// One for a value that is at most the cutoff, zero for any other.
pub open spec fn indicators(values: Seq<Double>, cutoff: Double) -> Seq<Double> {
    Seq::new(
        values.len(),
        |i: int|
            if values[i].at_most(cutoff) {
                num(ONE)
            } else {
                num(0)
            },
    )
}

/// Indicator kriging balances covariances of the indicators: for every datum the weighted
/// covariances, its own raised by a billionth of the sill, and the multiplier of ordinary
/// kriging make up the covariance with the target. Ordinary weights sum to one, and weigh
/// the indicators; simple weights weigh their deviations from the global proportion.
pub proof fn indicator_kriging_balances_covariances<const D: usize, F: Fn(Op, Double, Double) -> Double, G: Fn([Double; D]) -> Double>(
    ar: Arithmetic<F>,
    c: Numbers,
    model: Covariance<D, G>,
    all: Seq<[Double; D]>,
    nb: Seq<usize>,
    target: Seq<Double>,
    ordinary: bool,
    v: Seq<Double>,
    values: Seq<Double>,
    cutoff: Double,
    p: Double,
)
    requires
        numeric(ar, c, model),
        roots_exact(ar, c),
        c(num(STABILIZER)),
        target.len() == D,
        0 < nb.len() < usize::MAX,
        values.len() == nb.len(),
        c(p),
        ik_weights(ar, model, all, nb, target, ordinary, Ok(v)),
    ensures
        exists|w: Seq<Double>| #[trigger]
            all_numbers(c, w) && w.len() == nb.len() + 1 && ({
                let n = nb.len() as int;
                let places = chosen(all, nb);
                let near = covs_to(ar, model, places, target);
                let own = ar.plus(model.sill, ar.times(model.sill, num(STABILIZER)));
                let f = ik_estimate(ar, v, values, cutoff, p, ordinary);
                &&& forall|i: int|
                    0 <= i < n ==> ar.plus(
                        span_sum(ar, covs_with(ar, model, places, i, own), w, 0, n),
                        w[n],
                    ) == #[trigger] near[i]
                &&& if ordinary {
                    &&& span_sum(ar, ones(nb.len()), w, 0, n) == num(ONE)
                    &&& f == span_sum(ar, indicators(values, cutoff), w, 0, n)
                } else {
                    &&& w[n] == num(0)
                    &&& f == ar.plus(
                        p,
                        span_sum(ar, less(ar, indicators(values, cutoff), p), w, 0, n),
                    )
                }
            }),
{
    let n = nb.len() as int;
    let places = chosen(all, nb);
    let near = covs_to(ar, model, places, target);
    let own = ar.plus(model.sill, ar.times(model.sill, num(STABILIZER)));
    let ind = indicators(values, cutoff);
    closed(ar, c, num(0), num(ONE));
    assert(all_numbers(c, ind));
    assert forall|i: int| 0 <= i < n implies c(#[trigger] near[i]) by {
        lemma_covariance(ar, c, model, ar.separation(places[i], target));
    }
    if ordinary {
        let m = oik_matrix(ar, model, all, nb);
        let b = sk_rhs(ar, model, all, nb, target).push(num(ONE));
        closed(ar, c, model.sill, num(STABILIZER));
        closed(ar, c, model.sill, ar.times(model.sill, num(STABILIZER)));
        assert forall|r: int| 0 <= r < m.len() implies (#[trigger] m[r]).len() == m.len()
            && all_numbers(c, m[r]) by {
            assert forall|k: int| 0 <= k < m[r].len() implies c(#[trigger] m[r][k]) by {
                assert(m[r][k] == crate::indicator::oik_cell(ar, model, all, nb, r, k));
                if r < n && k < n {
                    lemma_covariance(
                        ar,
                        c,
                        model,
                        crate::covariance::ordered_gap(ar, all, nb, r, k),
                    );
                }
            }
        }
        assert forall|i: int| 0 <= i < b.len() implies c(#[trigger] b[i]) by {
            if i < n {
                assert(near[i] == b[i]);
            }
        }
        elimination_satisfies_the_system(ar, c, m, b, v);
        assert(v.len() == m.len());
        assert forall|i: int| 0 <= i < n implies ar.plus(
            span_sum(ar, covs_with(ar, model, places, i, own), v, 0, n),
            v[n],
        ) == #[trigger] near[i] by {
            let row = covs_with(ar, model, places, i, own);
            assert forall|j: int| 0 <= j < n implies #[trigger] row[j] == m[i][j] by {
                assert(m[i][j] == crate::indicator::oik_cell(ar, model, all, nb, i, j));
                let (p, q) = (places[i], places[j]);
                assert(model.semivariance(ar.separation(p, q)) == model.semivariance(
                    ar.separation(q, p),
                ));
            }
            lemma_row(ar, c, m, b, v, row, i, n);
            assert(m[i][n] == crate::indicator::oik_cell(ar, model, all, nb, i, n));
            closed(ar, c, v[n], num(ONE));
        }
        let sums = ones(nb.len());
        assert forall|j: int| 0 <= j < n implies #[trigger] sums[j] == m[n][j] by {
            assert(m[n][j] == crate::indicator::oik_cell(ar, model, all, nb, n, j));
        }
        lemma_row(ar, c, m, b, v, sums, n, n);
        assert(m[n][n] == crate::indicator::oik_cell(ar, model, all, nb, n, n));
        closed(ar, c, v[n], num(0));
        closed(ar, c, span_sum(ar, sums, v, 0, n), num(0));
        assert(crate::indicator::flags(values, cutoff) =~= ind);
        lemma_dot_start(ar, c, v, ind, n);
        lemma_dot_is_span(ar, c, num(0), v, ind, n);
        lemma_span_closed(ar, c, ind, v, 0, n);
        closed(ar, c, span_sum(ar, ind, v, 0, n), num(0));
        assert(all_numbers(c, v) && v.len() == nb.len() + 1);
    } else {
        lemma_simple_weights(ar, c, model, all, nb, target, v);
        let w = v.push(num(0));
        assert forall|i: int| 0 <= i < w.len() implies c(#[trigger] w[i]) by {
            if i < n {
                assert(c(v[i]));
            }
        }
        assert forall|i: int| 0 <= i < n implies ar.plus(
            span_sum(ar, covs_with(ar, model, places, i, own), w, 0, n),
            w[n],
        ) == #[trigger] near[i] by {
            let row = covs_with(ar, model, places, i, own);
            lemma_span_agrees(ar, row, row, w, v, 0, n);
            assert(span_sum(ar, row, v, 0, n) == near[i]);
            closed(ar, c, near[i], num(0));
        }
        let dev = less(ar, ind, p);
        assert(crate::indicator::centered_flags(ar, values, cutoff, p) =~= dev);
        assert forall|i: int| 0 <= i < dev.len() implies c(#[trigger] dev[i]) by {
            assert(c(ind[i]));
            closed(ar, c, ind[i], p);
        }
        lemma_dot_is_span(ar, c, p, v, dev, n);
        lemma_span_agrees(ar, dev, dev, w, v, 0, n);
        assert(all_numbers(c, w) && w.len() == nb.len() + 1);
    }
}

/// Cross-covariances of the indicators with the soft datum at the target: the covariances
/// of the indicators, times the correlation and the ratio of the standard deviations.
pub open spec fn soft_covs<const D: usize, F: Fn(Op, Double, Double) -> Double, G: Fn([Double; D]) -> Double>(
    ar: Arithmetic<F>,
    model: Covariance<D, G>,
    calib: MarkovBayesCalibration,
    places: Seq<Seq<Double>>,
    target: Seq<Double>,
) -> Seq<Double> {
    Seq::new(
        places.len(),
        |i: int|
            ar.times(
                ar.times(
                    calib.rho,
                    ar.over(calib.sigma_soft, ar.sqrt(model.sill.max(num(LEAST_SILL)))),
                ),
                cov(ar, model, places[i], target),
            ),
    )
}

/// Indicator kriging with a soft datum balances covariances: as simple indicator kriging
/// does, with the soft datum as one more, whose variance is its own and whose covariance
/// with the indicator at the target is the correlation times both standard deviations. The
/// estimate adds the weighted deviation of the soft datum from its own mean.
pub proof fn soft_kriging_balances_covariances<const D: usize, F: Fn(Op, Double, Double) -> Double, G: Fn([Double; D]) -> Double>(
    ar: Arithmetic<F>,
    c: Numbers,
    model: Covariance<D, G>,
    calib: MarkovBayesCalibration,
    all: Seq<[Double; D]>,
    nb: Seq<usize>,
    target: Seq<Double>,
    w: Seq<Double>,
    values: Seq<Double>,
    cutoff: Double,
    p: Double,
    soft: Double,
)
    requires
        numeric(ar, c, model),
        c(num(STABILIZER)),
        target.len() == D,
        nb.len() < usize::MAX,
        values.len() == nb.len(),
        c(p) && c(soft) && c(calib.rho) && c(calib.sigma_soft) && c(calib.mean_soft),
        c(ar.sqrt(model.sill.max(num(LEAST_SILL)))),
        ar.sqrt(model.sill.max(num(LEAST_SILL))) != num(0),
        soft_weights(ar, model, calib, all, nb, target, Ok(w)),
    ensures
        all_numbers(c, w),
        w.len() == nb.len() + 1,
        ({
            let n = nb.len() as int;
            let places = chosen(all, nb);
            let near = covs_to(ar, model, places, target);
            let small = ar.times(model.sill, num(STABILIZER));
            let cross = soft_covs(ar, model, calib, places, target);
            let sigma = ar.sqrt(model.sill.max(num(LEAST_SILL)));
            &&& forall|i: int|
                0 <= i < n ==> ar.plus(
                    span_sum(
                        ar,
                        covs_with(ar, model, places, i, ar.plus(model.sill, small)),
                        w,
                        0,
                        n,
                    ),
                    ar.times(cross[i], w[n]),
                ) == #[trigger] near[i]
            &&& ar.plus(
                span_sum(ar, cross, w, 0, n),
                ar.times(ar.plus(ar.times(calib.sigma_soft, calib.sigma_soft), small), w[n]),
            ) == ar.times(ar.times(calib.rho, calib.sigma_soft), sigma)
            &&& soft_estimate(ar, w, values, cutoff, p, soft, calib.mean_soft) == ar.plus(
                ar.plus(
                    p,
                    span_sum(ar, less(ar, indicators(values, cutoff), p), w, 0, n),
                ),
                ar.times(w[n], ar.minus(soft, calib.mean_soft)),
            )
        }),
{
    let n = nb.len() as int;
    let m = soft_matrix(ar, model, calib, all, nb, target);
    let b = soft_rhs(ar, model, calib, all, nb, target);
    let places = chosen(all, nb);
    let near = covs_to(ar, model, places, target);
    let small = ar.times(model.sill, num(STABILIZER));
    let cross = soft_covs(ar, model, calib, places, target);
    let sigma = ar.sqrt(model.sill.max(num(LEAST_SILL)));
    let own = ar.plus(model.sill, small);
    closed(ar, c, num(0), num(ONE));
    closed(ar, c, model.sill, num(STABILIZER));
    closed(ar, c, model.sill, small);
    closed(ar, c, calib.sigma_soft, calib.sigma_soft);
    closed(ar, c, ar.times(calib.sigma_soft, calib.sigma_soft), small);
    closed(ar, c, calib.rho, calib.sigma_soft);
    closed(ar, c, ar.times(calib.rho, calib.sigma_soft), sigma);
    closed(ar, c, calib.sigma_soft, sigma);
    let ratio = ar.over(calib.sigma_soft, sigma);
    closed(ar, c, calib.rho, ratio);
    assert forall|i: int| 0 <= i < n implies c(#[trigger] near[i]) && c(cross[i]) && near[i] == b[i] by {
        lemma_covariance(ar, c, model, ar.separation(places[i], target));
        closed(ar, c, ar.times(calib.rho, ratio), near[i]);
    }
    assert(all_numbers(c, cross)) by {
        assert forall|i: int| 0 <= i < n implies c(#[trigger] cross[i]) by {
            assert(c(near[i]));
        }
    }
    assert forall|r: int| 0 <= r < m.len() implies (#[trigger] m[r]).len() == m.len()
        && all_numbers(c, m[r]) by {
        assert forall|k: int| 0 <= k < m[r].len() implies c(#[trigger] m[r][k]) by {
            assert(m[r][k] == crate::indicator::soft_cell(
                ar,
                model,
                calib,
                all,
                nb,
                target,
                r,
                k,
            ));
            if r < n && k < n {
                lemma_covariance(ar, c, model, crate::covariance::ordered_gap(ar, all, nb, r, k));
            } else if r < n {
                assert(c(cross[r]));
            } else if k < n {
                assert(c(cross[k]));
            }
        }
    }
    assert forall|i: int| 0 <= i < b.len() implies c(#[trigger] b[i]) by {
        if i < n {
            assert(near[i] == b[i]);
        }
    }
    elimination_satisfies_the_system(ar, c, m, b, w);
    assert(w.len() == m.len());
    assert forall|i: int| 0 <= i < n implies ar.plus(
        span_sum(ar, covs_with(ar, model, places, i, own), w, 0, n),
        ar.times(cross[i], w[n]),
    ) == #[trigger] near[i] by {
        let row = covs_with(ar, model, places, i, own);
        assert forall|j: int| 0 <= j < n implies #[trigger] row[j] == m[i][j] by {
            assert(m[i][j] == crate::indicator::soft_cell(
                ar,
                model,
                calib,
                all,
                nb,
                target,
                i,
                j,
            ));
            let (p, q) = (places[i], places[j]);
            assert(model.semivariance(ar.separation(p, q)) == model.semivariance(
                ar.separation(q, p),
            ));
        }
        lemma_row(ar, c, m, b, w, row, i, n);
        assert(m[i][n] == crate::indicator::soft_cell(ar, model, calib, all, nb, target, i, n));
    }
    assert forall|j: int| 0 <= j < n implies #[trigger] cross[j] == m[n][j] by {
        assert(m[n][j] == crate::indicator::soft_cell(ar, model, calib, all, nb, target, n, j));
    }
    lemma_row(ar, c, m, b, w, cross, n, n);
    assert(m[n][n] == crate::indicator::soft_cell(ar, model, calib, all, nb, target, n, n));
    let ind = indicators(values, cutoff);
    let dev = less(ar, ind, p);
    assert(crate::indicator::centered_flags(ar, values, cutoff, p) =~= dev);
    assert forall|i: int| 0 <= i < dev.len() implies c(#[trigger] dev[i]) by {
        closed(ar, c, ind[i], p);
    }
    lemma_dot_is_span(ar, c, p, w, dev, n);
}

/// Covariances of a place with the points of a block around a center.
pub open spec fn covs_to_block<const D: usize, F: Fn(Op, Double, Double) -> Double, G: Fn([Double; D]) -> Double>(
    ar: Arithmetic<F>,
    model: Covariance<D, G>,
    p: Seq<Double>,
    center: Seq<Double>,
    offsets: Seq<[Double; D]>,
) -> Seq<Double> {
    Seq::new(
        offsets.len(),
        |u: int|
            cov(
                ar,
                model,
                p,
                Seq::new(D as nat, |d: int| ar.plus(center[d], offsets[u]@[d])),
            ),
    )
}

/// Covariances of all pairs of points of a block, row by row; that of a point with itself
/// is without the nugget.
pub open spec fn covs_in_block<const D: usize, F: Fn(Op, Double, Double) -> Double, G: Fn([Double; D]) -> Double>(
    ar: Arithmetic<F>,
    model: Covariance<D, G>,
    offsets: Seq<[Double; D]>,
    count: nat,
) -> Seq<Double> {
    Seq::new(
        count,
        |t: int|
            {
                let n = offsets.len() as int;
                if t / n == t % n {
                    ar.minus(model.sill, model.nugget)
                } else {
                    cov(ar, model, offsets[t / n]@, offsets[t % n]@)
                }
            },
    )
}

/// A row of pairs adds up.
proof fn lemma_block_row<const D: usize, F: Fn(Op, Double, Double) -> Double, G: Fn([Double; D]) -> Double>(
    ar: Arithmetic<F>,
    model: Covariance<D, G>,
    offsets: Seq<[Double; D]>,
    u: int,
    k: int,
    start: Double,
)
    requires
        0 <= u < offsets.len(),
        0 <= k <= offsets.len(),
        start == ar.accumulated(covs_in_block(ar, model, offsets, (u * offsets.len()) as nat)),
    ensures
        u * offsets.len() + k >= 0,
        crate::kriging::block_row(
            ar,
            model,
            offsets,
            ar.minus(model.sill, model.nugget),
            u,
            k,
            start,
        ) == ar.accumulated(
            covs_in_block(ar, model, offsets, (u * offsets.len() + k) as nat),
        ),
    decreases k,
{
    let n = offsets.len() as int;
    assert(u * n >= 0) by (nonlinear_arith)
        requires
            u >= 0,
            n >= 0,
    ;
    if k > 0 {
        lemma_block_row(ar, model, offsets, u, k - 1, start);
        let now = covs_in_block(ar, model, offsets, (u * n + k) as nat);
        assert(now.drop_last() =~= covs_in_block(ar, model, offsets, (u * n + k - 1) as nat));
        vstd::arithmetic::div_mod::lemma_fundamental_div_mod_converse(
            u * n + (k - 1),
            n,
            u,
            k - 1,
        );
    }
}

proof fn lemma_block_sum<const D: usize, F: Fn(Op, Double, Double) -> Double, G: Fn([Double; D]) -> Double>(
    ar: Arithmetic<F>,
    model: Covariance<D, G>,
    offsets: Seq<[Double; D]>,
    u: int,
)
    requires
        0 <= u <= offsets.len(),
    ensures
        u * offsets.len() >= 0,
        crate::kriging::block_sum(ar, model, offsets, ar.minus(model.sill, model.nugget), u)
            == ar.accumulated(covs_in_block(ar, model, offsets, (u * offsets.len()) as nat)),
    decreases u,
{
    let n = offsets.len() as int;
    assert(u * n >= 0) by (nonlinear_arith)
        requires
            u >= 0,
            n >= 0,
    ;
    if u > 0 {
        lemma_block_sum(ar, model, offsets, u - 1);
        let before = crate::kriging::block_sum(
            ar,
            model,
            offsets,
            ar.minus(model.sill, model.nugget),
            u - 1,
        );
        lemma_block_row(ar, model, offsets, u - 1, n, before);
        assert((u - 1) * n + n == u * n) by (nonlinear_arith);
    } else {
        assert(0 * n == 0) by (nonlinear_arith);
        assert(covs_in_block(ar, model, offsets, 0) =~= Seq::empty());
    }
}

/// Block kriging balances covariances: as point kriging does, with the mean covariance of
/// every datum with the points of the block in place of that with the target, and the mean
/// covariance of all pairs of points of the block, the nugget left out of a point with
/// itself, in place of the sill.
pub proof fn block_kriging_balances_covariances<'a, const D: usize, F: Fn(Op, Double, Double) -> Double, G: Fn([Double; D]) -> Double>(
    s: &Setting<'a, D, G>,
    ar: Arithmetic<F>,
    c: Numbers,
    nb: Seq<usize>,
    center: [Double; D],
    offsets: Seq<[Double; D]>,
    e: KrigingEstimate,
)
    requires
        numeric(ar, c, *s.model),
        c(s.model.nugget),
        crate::exact_kriging::counts(ar, c, offsets.len()),
        s.config.method is Simple || s.config.method is Ordinary,
        s.config.method matches KrigingMethod::Simple { mean } ==> c(mean),
        nb.len() < usize::MAX,
        0 < nb.len(),
        all_numbers(c, picked(s.data.attributes(), nb)),
        all_numbers(c, s.measurement_error@),
        s.block_kriged(ar, center, offsets, nb, Ok(e)),
    ensures
        exists|w: Seq<Double>, near: Seq<Double>, top: Double|
            #![trigger all_numbers(c, w), all_numbers(c, near), c(top)]
            all_numbers(c, w) && w.len() == nb.len() + 1 && all_numbers(c, near) && near.len()
                == nb.len() && c(top) && ({
                let n = nb.len() as int;
                let k = Double::count(offsets.len());
                let sill = s.model.sill;
                let places = chosen(s.data.places(), nb);
                let values = picked(s.data.attributes(), nb);
                &&& ar.times(top, ar.times(k, k)) == ar.accumulated(
                    covs_in_block(ar, *s.model, offsets, offsets.len() * offsets.len()),
                )
                &&& forall|i: int|
                    0 <= i < n ==> ar.times(#[trigger] near[i], k) == ar.accumulated(
                        covs_to_block(ar, *s.model, places[i], center@, offsets),
                    )
                &&& forall|i: int|
                    0 <= i < n ==> ar.plus(
                        span_sum(
                            ar,
                            covs_with(
                                ar,
                                *s.model,
                                places,
                                i,
                                ar.plus(sill, or_zero(s.measurement_error@, nb[i] as int)),
                            ),
                            w,
                            0,
                            n,
                        ),
                        w[n],
                    ) == #[trigger] near[i]
                &&& match s.config.method {
                    KrigingMethod::Simple { mean } => {
                        &&& w[n] == num(0)
                        &&& e.value == ar.plus(mean, span_sum(ar, less(ar, values, mean), w, 0, n))
                        &&& e.variance == ar.minus(top, span_sum(ar, near, w, 0, n)).max(num(0))
                        &&& e.lagrange is None
                    },
                    _ => {
                        &&& span_sum(ar, ones(nb.len()), w, 0, n) == num(ONE)
                        &&& e.value == span_sum(ar, values, w, 0, n)
                        &&& e.variance == ar.minus(
                            top,
                            ar.plus(span_sum(ar, near, w, 0, n), w[n]),
                        ).max(num(0))
                        &&& e.lagrange == Some(w[n])
                    },
                }
            }),
{
    let n = nb.len() as int;
    let sill = s.model.sill;
    let m = s.block_lhs(ar, nb);
    let b = s.block_rhs(ar, nb, center@, offsets);
    let simple = s.config.method is Simple;
    let k = Double::count(offsets.len());
    let places = chosen(s.data.places(), nb);
    let values = picked(s.data.attributes(), nb);
    closed(ar, c, num(0), num(ONE));
    assert forall|i: int| 0 <= i < n implies c(#[trigger] s.error_at(nb[i] as int)) by {
        if nb[i] < s.measurement_error@.len() {
            assert(c(s.measurement_error@[nb[i] as int]));
        }
    }
    assert forall|r: int| 0 <= r < m.len() implies (#[trigger] m[r]).len() == m.len()
        && all_numbers(c, m[r]) by {
        assert forall|j: int| 0 <= j < m[r].len() implies c(#[trigger] m[r][j]) by {
            assert(m[r][j] == s.block_cell(ar, nb, r, j));
            if r < n && j < n {
                if r == j {
                    closed(ar, c, sill, s.error_at(nb[r] as int));
                } else {
                    lemma_covariance(ar, c, *s.model, s.gap(ar, nb, r, j));
                }
            }
        }
    }
    // Points and block.
    assert forall|i: int| 0 <= i < n implies c(#[trigger] b[i]) && ar.times(b[i], k)
        == ar.accumulated(covs_to_block(ar, *s.model, places[i], center@, offsets)) by {
        let list = crate::kriging::to_block(ar, *s.model, places[i], center@, offsets);
        let want = covs_to_block(ar, *s.model, places[i], center@, offsets);
        assert forall|u: int| 0 <= u < list.len() implies list[u] == want[u] && c(
            #[trigger] list[u],
        ) by {
            let q = Seq::new(D as nat, |d: int| ar.plus(center@[d], offsets[u]@[d]));
            assert(crate::kriging::block_gap(ar, places[i], center@, offsets[u]@)
                =~= ar.separation(places[i], q));
            lemma_covariance(ar, c, *s.model, ar.separation(places[i], q));
        }
        assert(list =~= want);
        crate::exact_kriging::lemma_average_closed(ar, c, list);
    }
    assert forall|r: int| 0 <= r < b.len() implies c(#[trigger] b[r]) by {
        if r < n {
            assert(c(b[r]));
        }
    }
    let near = b.take(n);
    assert(all_numbers(c, near)) by {
        assert forall|i: int| 0 <= i < n implies c(#[trigger] near[i]) by {
            assert(c(b[i]));
        }
    }
    // Within the block.
    let pairs = covs_in_block(ar, *s.model, offsets, offsets.len() * offsets.len());
    let top = crate::kriging::within_block(ar, *s.model, offsets);
    lemma_block_sum(ar, *s.model, offsets, offsets.len() as int);
    closed(ar, c, sill, s.model.nugget);
    assert(all_numbers(c, pairs)) by {
        assert forall|t: int| 0 <= t < pairs.len() implies c(#[trigger] pairs[t]) by {
            let q = offsets.len() as int;
            lemma_covariance(
                ar,
                c,
                *s.model,
                ar.separation(offsets[t / q]@, offsets[t % q]@),
            );
        }
    }
    crate::exact_kriging::lemma_total_closed(ar, c, pairs);
    crate::algebra::lemma_product_not_zero(ar, c, k, k);
    closed(ar, c, ar.accumulated(pairs), ar.times(k, k));
    // The system.
    let v = choose|v: Seq<Double>| #[trigger]
        solution(ar, m, b, v) && e == s.weighted(ar, nb, v, b, Some(top));
    elimination_satisfies_the_system(ar, c, m, b, v);
    assert(v.len() == m.len());
    let w = if simple {
        v.push(num(0))
    } else {
        v
    };
    assert forall|i: int| 0 <= i < w.len() implies c(#[trigger] w[i]) by {
        if i < v.len() {
            assert(c(v[i]));
        }
    }
    assert(values =~= s.values_at(nb));
    assert forall|i: int| 0 <= i < n implies ar.plus(
        span_sum(
            ar,
            covs_with(
                ar,
                *s.model,
                places,
                i,
                ar.plus(sill, or_zero(s.measurement_error@, nb[i] as int)),
            ),
            w,
            0,
            n,
        ),
        w[n],
    ) == #[trigger] near[i] by {
        let row = covs_with(
            ar,
            *s.model,
            places,
            i,
            ar.plus(sill, or_zero(s.measurement_error@, nb[i] as int)),
        );
        assert forall|j: int| 0 <= j < n implies #[trigger] row[j] == m[i][j] by {
            assert(m[i][j] == s.block_cell(ar, nb, i, j));
            let (p, q) = (places[i], places[j]);
            assert(s.model.semivariance(ar.separation(p, q)) == s.model.semivariance(
                ar.separation(q, p),
            ));
        }
        assert(m[i].len() == m.len() && all_numbers(c, m[i]));
        assert(b[i] == applied(ar, m, v)[i]);
        lemma_span_agrees(ar, row, m[i], w, v, 0, n);
        lemma_span_closed(ar, c, m[i], v, 0, n);
        closed(ar, c, span_sum(ar, m[i], v, 0, n), num(0));
        if !simple {
            assert(m[i][n] == s.block_cell(ar, nb, i, n));
            assert(c(v[n]));
            closed(ar, c, v[n], num(ONE));
        }
    }
    lemma_span_agrees(ar, near, b, w, v, 0, n);
    lemma_span_closed(ar, c, b, v, 0, n);
    let reduction = span_sum(ar, b, v, 0, n);
    closed(ar, c, num(0), reduction);
    closed(ar, c, reduction, num(0));
    if let KrigingMethod::Simple { mean } = s.config.method {
        let centered = s.centered_at(ar, nb, mean);
        let inline = less(ar, values, mean);
        assert(centered =~= inline);
        assert forall|i: int| 0 <= i < centered.len() implies c(#[trigger] centered[i]) by {
            assert(c(values[i]));
            closed(ar, c, values[i], mean);
        }
        lemma_dot_is_span(ar, c, mean, v, centered, n);
        lemma_dot_is_span(ar, c, num(0), v, b, n);
        lemma_span_agrees(ar, inline, centered, w, v, 0, n);
    } else {
        let sums = ones(nb.len());
        assert forall|j: int| 0 <= j < n implies #[trigger] sums[j] == m[n][j] by {
            assert(m[n][j] == s.block_cell(ar, nb, n, j));
        }
        lemma_row(ar, c, m, b, v, sums, n, n);
        assert(m[n][n] == s.block_cell(ar, nb, n, n));
        closed(ar, c, v[n], num(0));
        closed(ar, c, v[n], num(ONE));
        closed(ar, c, span_sum(ar, sums, v, 0, n), num(0));
        lemma_dot_start(ar, c, v, values, n);
        lemma_dot_is_span(ar, c, num(0), v, values, n);
        lemma_span_closed(ar, c, values, v, 0, n);
        closed(ar, c, span_sum(ar, values, v, 0, n), num(0));
        lemma_dot_start(ar, c, v, b, n + 1);
        lemma_dot_is_span(ar, c, num(0), v, b, n + 1);
        closed(ar, c, reduction, v[n]);
        closed(ar, c, ar.plus(reduction, v[n]), num(0));
        assert(span_sum(ar, b, v, 0, n + 1) == ar.plus(reduction, ar.times(b[n], v[n])));
        assert(b[n] == num(ONE));
    }
    assert(all_numbers(c, w) && w.len() == nb.len() + 1 && c(top));
}

/// One for the conditioning points of a variable, zero for the others.
pub open spec fn of_variable(ms: Seq<Member>, v: int) -> Seq<Double> {
    Seq::new(
        ms.len(),
        |i: int|
            if ms[i].0 == v {
                num(ONE)
            } else {
                num(0)
            },
    )
}

/// Cross-covariances of a conditioning point of co-kriging with all of them.
pub open spec fn cross_covs<'a, const D: usize, F: Fn(Op, Double, Double) -> Double, G: Fn([Double; D]) -> Double>(
    co: &CoSetting<'a, D, G>,
    ar: Arithmetic<F>,
    ms: Seq<Member>,
    i: int,
) -> Seq<Double> {
    Seq::new(
        ms.len(),
        |j: int|
            co.lmc.cross(
                ar,
                ms[i].0 as int,
                ms[j].0 as int,
                ar.separation(
                    co.datasets@[ms[i].0 as int].places()[ms[i].1 as int]@,
                    co.datasets@[ms[j].0 as int].places()[ms[j].1 as int]@,
                ),
            ),
    )
}

/// Cross-covariances of the conditioning points with the primary at the target.
pub open spec fn cross_covs_to<'a, const D: usize, F: Fn(Op, Double, Double) -> Double, G: Fn([Double; D]) -> Double>(
    co: &CoSetting<'a, D, G>,
    ar: Arithmetic<F>,
    ms: Seq<Member>,
    target: Seq<Double>,
) -> Seq<Double> {
    Seq::new(
        ms.len(),
        |i: int|
            co.lmc.cross(
                ar,
                ms[i].0 as int,
                0,
                ar.separation(co.datasets@[ms[i].0 as int].places()[ms[i].1 as int]@, target),
            ),
    )
}

/// Values of the conditioning points, each of its variable.
pub open spec fn values_of<'a, const D: usize, G>(co: &CoSetting<'a, D, G>, ms: Seq<Member>) -> Seq<Double> {
    Seq::new(
        ms.len(),
        |i: int| co.datasets@[ms[i].0 as int].attributes()[ms[i].1 as int],
    )
}

/// Co-kriging balances covariances: for every conditioning point the weighted
/// cross-covariances with all of them and the multiplier of its variable make up the
/// cross-covariance with the primary at the target. Weights of the primary sum to one,
/// those of every other variable to zero. The estimate is the values, weighted.
pub proof fn cokriging_balances_covariances<'a, const D: usize, F: Fn(Op, Double, Double) -> Double, G: Fn([Double; D]) -> Double>(
    co: &CoSetting<'a, D, G>,
    ar: Arithmetic<F>,
    c: Numbers,
    ms: Seq<Member>,
    target: [Double; D],
    e: KrigingEstimate,
)
    requires
        exact(ar, c),
        !co.config.ridge.is_positive(),
        0 < co.datasets@.len(),
        ms.len() + co.datasets@.len() <= usize::MAX,
        forall|i: int| 0 <= i < ms.len() ==> (#[trigger] ms[i]).0 < co.datasets@.len(),
        forall|u: int, v: int, h: Seq<Double>| c(#[trigger] co.lmc.cross(ar, u, v, h)),
        forall|u: int, v: int, p: Seq<Double>, q: Seq<Double>|
            #![trigger co.lmc.cross(ar, u, v, ar.separation(p, q))]
            p.len() == D && q.len() == D ==> co.lmc.cross(ar, u, v, ar.separation(p, q))
                == co.lmc.cross(ar, v, u, ar.separation(q, p)),
        c(co.lmc.cosill(ar, 0, 0)),
        all_numbers(c, values_of(co, ms)),
        co.cokriged(ar, target, None, false, ms, Ok(e)),
    ensures
        exists|w: Seq<Double>| #[trigger]
            all_numbers(c, w) && w.len() == ms.len() + co.datasets@.len() && ({
                let n = ms.len() as int;
                let near = cross_covs_to(co, ar, ms, target@);
                &&& forall|i: int|
                    0 <= i < n ==> ar.plus(
                        span_sum(ar, cross_covs(co, ar, ms, i), w, 0, n),
                        w[n + ms[i].0],
                    ) == #[trigger] near[i]
                &&& forall|v: int|
                    0 <= v < co.datasets@.len() ==> span_sum(
                        ar,
                        #[trigger] of_variable(ms, v),
                        w,
                        0,
                        n,
                    ) == (if v == 0 {
                        num(ONE)
                    } else {
                        num(0)
                    })
                &&& e.value == ar.plus(num(0), span_sum(ar, values_of(co, ms), w, 0, n))
                &&& e.variance == ar.minus(
                    co.lmc.cosill(ar, 0, 0),
                    ar.plus(span_sum(ar, near, w, 0, n), w[n]),
                ).max(num(0))
            }),
{
    let n = ms.len() as int;
    let k = co.datasets@.len() as int;
    let m = co.lhs(ar, ms);
    let b = co.rhs(ar, ms, target@, None);
    let near = cross_covs_to(co, ar, ms, target@);
    closed(ar, c, num(0), num(ONE));
    assert forall|r: int| 0 <= r < m.len() implies (#[trigger] m[r]).len() == m.len()
        && all_numbers(c, m[r]) by {
        assert forall|j: int| 0 <= j < m[r].len() implies c(#[trigger] m[r][j]) by {
            assert(m[r][j] == co.cell(ar, ms, r, j));
        }
    }
    assert forall|r: int| 0 <= r < b.len() implies c(#[trigger] b[r]) by {}
    assert forall|i: int| 0 <= i < n implies #[trigger] near[i] == b[i] && c(near[i]) by {}
    let w = choose|w: Seq<Double>| #[trigger]
        solution(ar, m, b, w) && e == co.weighted(ar, ms, w, b, None);
    elimination_satisfies_the_system(ar, c, m, b, w);
    assert(w.len() == m.len());
    assert forall|i: int| 0 <= i < n implies ar.plus(
        span_sum(ar, cross_covs(co, ar, ms, i), w, 0, n),
        w[n + ms[i].0],
    ) == #[trigger] near[i] by {
        let row = cross_covs(co, ar, ms, i);
        assert forall|j: int| 0 <= j < n implies #[trigger] row[j] == m[i][j] by {
            assert(m[i][j] == co.cell(ar, ms, i, j));
            let (p, q) = (co.place(ms[i]), co.place(ms[j]));
            assert(co.lmc.cross(ar, ms[i].0 as int, ms[j].0 as int, ar.separation(p, q))
                == co.lmc.cross(ar, ms[j].0 as int, ms[i].0 as int, ar.separation(q, p)));
        }
        assert(m[i].len() == m.len() && all_numbers(c, m[i]));
        lemma_span_agrees(ar, row, m[i], w, w, 0, n);
        assert(b[i] == applied(ar, m, w)[i]);
        assert(ms[i].0 < co.datasets@.len());
        assert forall|j: int| n <= j < n + k implies #[trigger] m[i][j] == (if j == n + ms[i].0 {
            num(ONE)
        } else {
            num(0)
        }) by {
            assert(m[i][j] == co.cell(ar, ms, i, j));
        }
        lemma_picks_one(ar, c, m[i], w, n, n + ms[i].0, n + k);
    }
    assert forall|v: int| 0 <= v < k implies span_sum(
        ar,
        #[trigger] of_variable(ms, v),
        w,
        0,
        n,
    ) == (if v == 0 {
        num(ONE)
    } else {
        num(0)
    }) by {
        let row = of_variable(ms, v);
        let r = n + v;
        assert forall|j: int| 0 <= j < n implies #[trigger] row[j] == m[r][j] by {
            assert(m[r][j] == co.cell(ar, ms, r, j));
        }
        assert(m[r].len() == m.len() && all_numbers(c, m[r]));
        lemma_span_agrees(ar, row, m[r], w, w, 0, n);
        assert(b[r] == applied(ar, m, w)[r]);
        assert forall|j: int| n <= j < n + k implies #[trigger] m[r][j] == num(0) by {
            assert(m[r][j] == co.cell(ar, ms, r, j));
        }
        crate::exact_kriging::lemma_zero_tail(ar, c, m[r], w, n, n + k);
    }
    let values = values_of(co, ms);
    assert(values =~= co.values_at(ms));
    lemma_dot_is_span(ar, c, num(0), w, values, n);
    // The variance.
    lemma_dot_start(ar, c, w, b, n + k);
    lemma_dot_is_span(ar, c, num(0), w, b, n + k);
    lemma_span_agrees(ar, near, b, w, w, 0, n);
    lemma_span_closed(ar, c, b, w, 0, n);
    lemma_span_closed(ar, c, b, w, 0, n + k);
    closed(ar, c, span_sum(ar, b, w, 0, n + k), num(0));
    assert forall|j: int| n <= j < n + k implies #[trigger] b[j] == (if j == n {
        num(ONE)
    } else {
        num(0)
    }) by {}
    lemma_picks_one(ar, c, b, w, n, n, n + k);
    assert(all_numbers(c, w) && w.len() == ms.len() + co.datasets@.len());
}

/// Cross-covariances of a conditioning point with the primary at the points of a block
/// around a center.
pub open spec fn cross_covs_to_block<'a, const D: usize, F: Fn(Op, Double, Double) -> Double, G: Fn([Double; D]) -> Double>(
    co: &CoSetting<'a, D, G>,
    ar: Arithmetic<F>,
    m: Member,
    center: Seq<Double>,
    offsets: Seq<[Double; D]>,
) -> Seq<Double> {
    Seq::new(
        offsets.len(),
        |u: int|
            co.lmc.cross(
                ar,
                m.0 as int,
                0,
                ar.separation(
                    co.datasets@[m.0 as int].places()[m.1 as int]@,
                    Seq::new(D as nat, |d: int| ar.plus(center[d], offsets[u]@[d])),
                ),
            ),
    )
}

/// Covariances of the primary of all pairs of points of a block, row by row; that of a
/// point with itself is without the nugget.
pub open spec fn cross_covs_in_block<'a, const D: usize, F: Fn(Op, Double, Double) -> Double, G: Fn([Double; D]) -> Double>(
    co: &CoSetting<'a, D, G>,
    ar: Arithmetic<F>,
    offsets: Seq<[Double; D]>,
    count: nat,
) -> Seq<Double> {
    Seq::new(
        count,
        |t: int|
            {
                let n = offsets.len() as int;
                if t / n == t % n {
                    ar.minus(co.lmc.cosill(ar, 0, 0), co.lmc.nugget@[0]@[0])
                } else {
                    co.lmc.cross(ar, 0, 0, ar.separation(offsets[t / n]@, offsets[t % n]@))
                }
            },
    )
}

proof fn lemma_cross_row<'a, const D: usize, F: Fn(Op, Double, Double) -> Double, G: Fn([Double; D]) -> Double>(
    co: &CoSetting<'a, D, G>,
    ar: Arithmetic<F>,
    offsets: Seq<[Double; D]>,
    u: int,
    k: int,
    start: Double,
)
    requires
        0 <= u < offsets.len(),
        0 <= k <= offsets.len(),
        start == ar.accumulated(cross_covs_in_block(co, ar, offsets, (u * offsets.len()) as nat)),
    ensures
        u * offsets.len() + k >= 0,
        co.offset_row(ar, offsets, u, k, start) == ar.accumulated(
            cross_covs_in_block(co, ar, offsets, (u * offsets.len() + k) as nat),
        ),
    decreases k,
{
    let n = offsets.len() as int;
    assert(u * n >= 0) by (nonlinear_arith)
        requires
            u >= 0,
            n >= 0,
    ;
    if k > 0 {
        lemma_cross_row(co, ar, offsets, u, k - 1, start);
        let now = cross_covs_in_block(co, ar, offsets, (u * n + k) as nat);
        assert(now.drop_last() =~= cross_covs_in_block(co, ar, offsets, (u * n + k - 1) as nat));
        vstd::arithmetic::div_mod::lemma_fundamental_div_mod_converse(
            u * n + (k - 1),
            n,
            u,
            k - 1,
        );
    }
}

proof fn lemma_cross_sum<'a, const D: usize, F: Fn(Op, Double, Double) -> Double, G: Fn([Double; D]) -> Double>(
    co: &CoSetting<'a, D, G>,
    ar: Arithmetic<F>,
    offsets: Seq<[Double; D]>,
    u: int,
)
    requires
        0 <= u <= offsets.len(),
    ensures
        u * offsets.len() >= 0,
        co.offset_sum(ar, offsets, u) == ar.accumulated(
            cross_covs_in_block(co, ar, offsets, (u * offsets.len()) as nat),
        ),
    decreases u,
{
    let n = offsets.len() as int;
    assert(u * n >= 0) by (nonlinear_arith)
        requires
            u >= 0,
            n >= 0,
    ;
    if u > 0 {
        lemma_cross_sum(co, ar, offsets, u - 1);
        lemma_cross_row(co, ar, offsets, u - 1, n, co.offset_sum(ar, offsets, u - 1));
        assert((u - 1) * n + n == u * n) by (nonlinear_arith);
    } else {
        assert(0 * n == 0) by (nonlinear_arith);
        assert(cross_covs_in_block(co, ar, offsets, 0) =~= Seq::empty());
    }
}

/// Block co-kriging balances covariances: as point co-kriging does, with the mean
/// cross-covariance of every datum with the points of the block in place of that with the
/// target, and the mean covariance of all pairs of points of the block, the nugget left out
/// of a point with itself, in place of the sill.
pub proof fn block_cokriging_balances_covariances<'a, const D: usize, F: Fn(Op, Double, Double) -> Double, G: Fn([Double; D]) -> Double>(
    co: &CoSetting<'a, D, G>,
    ar: Arithmetic<F>,
    c: Numbers,
    ms: Seq<Member>,
    center: [Double; D],
    offsets: Seq<[Double; D]>,
    e: KrigingEstimate,
)
    requires
        exact(ar, c),
        !co.config.ridge.is_positive(),
        0 < co.datasets@.len(),
        ms.len() + co.datasets@.len() <= usize::MAX,
        forall|i: int| 0 <= i < ms.len() ==> (#[trigger] ms[i]).0 < co.datasets@.len(),
        forall|u: int, v: int, h: Seq<Double>| c(#[trigger] co.lmc.cross(ar, u, v, h)),
        forall|u: int, v: int, p: Seq<Double>, q: Seq<Double>|
            #![trigger co.lmc.cross(ar, u, v, ar.separation(p, q))]
            p.len() == D && q.len() == D ==> co.lmc.cross(ar, u, v, ar.separation(p, q))
                == co.lmc.cross(ar, v, u, ar.separation(q, p)),
        c(co.lmc.cosill(ar, 0, 0)),
        c(co.lmc.nugget@[0]@[0]),
        c(Double::count(offsets.len())),
        Double::count(offsets.len()) != num(0),
        c(Double::count(offsets.len() * offsets.len())),
        Double::count(offsets.len() * offsets.len()) != num(0),
        all_numbers(c, values_of(co, ms)),
        co.cokriged(ar, center, Some(offsets), false, ms, Ok(e)),
    ensures
        exists|w: Seq<Double>, near: Seq<Double>, top: Double|
            #![trigger all_numbers(c, w), all_numbers(c, near), c(top)]
            all_numbers(c, w) && w.len() == ms.len() + co.datasets@.len() && all_numbers(c, near)
                && near.len() == ms.len() && c(top) && ({
                let n = ms.len() as int;
                &&& ar.times(top, Double::count(offsets.len() * offsets.len())) == ar.accumulated(
                    cross_covs_in_block(co, ar, offsets, offsets.len() * offsets.len()),
                )
                &&& forall|i: int|
                    0 <= i < n ==> ar.times(#[trigger] near[i], Double::count(offsets.len()))
                        == ar.accumulated(
                        cross_covs_to_block(co, ar, ms[i], center@, offsets),
                    )
                &&& forall|i: int|
                    0 <= i < n ==> ar.plus(
                        span_sum(ar, cross_covs(co, ar, ms, i), w, 0, n),
                        w[n + ms[i].0],
                    ) == #[trigger] near[i]
                &&& forall|v: int|
                    0 <= v < co.datasets@.len() ==> span_sum(
                        ar,
                        #[trigger] of_variable(ms, v),
                        w,
                        0,
                        n,
                    ) == (if v == 0 {
                        num(ONE)
                    } else {
                        num(0)
                    })
                &&& e.value == ar.plus(num(0), span_sum(ar, values_of(co, ms), w, 0, n))
                &&& e.variance == ar.minus(
                    top,
                    ar.plus(span_sum(ar, near, w, 0, n), w[n]),
                ).max(num(0))
            }),
{
    let n = ms.len() as int;
    let k = co.datasets@.len() as int;
    let m = co.lhs(ar, ms);
    let b = co.rhs(ar, ms, center@, Some(offsets));
    let near = b.take(n);
    let q = Double::count(offsets.len());
    closed(ar, c, num(0), num(ONE));
    assert forall|r: int| 0 <= r < m.len() implies (#[trigger] m[r]).len() == m.len()
        && all_numbers(c, m[r]) by {
        assert forall|j: int| 0 <= j < m[r].len() implies c(#[trigger] m[r][j]) by {
            assert(m[r][j] == co.cell(ar, ms, r, j));
        }
    }
    assert forall|r: int| 0 <= r < b.len() implies c(#[trigger] b[r]) && (r < n ==> ar.times(
        b[r],
        q,
    ) == ar.accumulated(cross_covs_to_block(co, ar, ms[r], center@, offsets))) by {
        if r < n {
            let row = cross_covs_to_block(co, ar, ms[r], center@, offsets);
            assert forall|u: int| 0 <= u < row.len() implies c(#[trigger] row[u]) && row[u]
                == co.to_offsets(ar, ms[r], center@, offsets)[u] by {
                let spot = Seq::new(D as nat, |d: int| ar.plus(center@[d], offsets[u]@[d]));
                assert(block_gap(ar, co.place(ms[r]), center@, offsets[u]@) =~= ar.separation(
                    co.place(ms[r]),
                    spot,
                ));
            }
            assert(row =~= co.to_offsets(ar, ms[r], center@, offsets));
            crate::exact_kriging::lemma_total_closed(ar, c, row);
            closed(ar, c, ar.accumulated(row), q);
        }
    }
    assert forall|i: int| 0 <= i < n implies #[trigger] near[i] == b[i] && c(near[i]) && ar.times(
        near[i],
        q,
    ) == ar.accumulated(cross_covs_to_block(co, ar, ms[i], center@, offsets)) by {
        assert(c(b[i]));
    }
    lemma_cross_sum(co, ar, offsets, offsets.len() as int);
    let within = cross_covs_in_block(co, ar, offsets, offsets.len() * offsets.len());
    assert forall|t: int| 0 <= t < within.len() implies c(#[trigger] within[t]) by {
        closed(ar, c, co.lmc.cosill(ar, 0, 0), co.lmc.nugget@[0]@[0]);
    }
    crate::exact_kriging::lemma_total_closed(ar, c, within);
    let top = co.target_variance(ar, Some(offsets));
    closed(ar, c, ar.accumulated(within), Double::count(offsets.len() * offsets.len()));
    assert(c(top));
    let w = choose|w: Seq<Double>| #[trigger]
        solution(ar, m, b, w) && e == co.weighted(ar, ms, w, b, Some(offsets));
    elimination_satisfies_the_system(ar, c, m, b, w);
    assert(w.len() == m.len());
    assert forall|i: int| 0 <= i < n implies ar.plus(
        span_sum(ar, cross_covs(co, ar, ms, i), w, 0, n),
        w[n + ms[i].0],
    ) == #[trigger] near[i] by {
        let row = cross_covs(co, ar, ms, i);
        assert forall|j: int| 0 <= j < n implies #[trigger] row[j] == m[i][j] by {
            assert(m[i][j] == co.cell(ar, ms, i, j));
            let (p, q) = (co.place(ms[i]), co.place(ms[j]));
            assert(co.lmc.cross(ar, ms[i].0 as int, ms[j].0 as int, ar.separation(p, q))
                == co.lmc.cross(ar, ms[j].0 as int, ms[i].0 as int, ar.separation(q, p)));
        }
        assert(m[i].len() == m.len() && all_numbers(c, m[i]));
        lemma_span_agrees(ar, row, m[i], w, w, 0, n);
        assert(b[i] == applied(ar, m, w)[i]);
        assert(ms[i].0 < co.datasets@.len());
        assert forall|j: int| n <= j < n + k implies #[trigger] m[i][j] == (if j == n + ms[i].0 {
            num(ONE)
        } else {
            num(0)
        }) by {
            assert(m[i][j] == co.cell(ar, ms, i, j));
        }
        lemma_picks_one(ar, c, m[i], w, n, n + ms[i].0, n + k);
    }
    assert forall|v: int| 0 <= v < k implies span_sum(
        ar,
        #[trigger] of_variable(ms, v),
        w,
        0,
        n,
    ) == (if v == 0 {
        num(ONE)
    } else {
        num(0)
    }) by {
        let row = of_variable(ms, v);
        let r = n + v;
        assert forall|j: int| 0 <= j < n implies #[trigger] row[j] == m[r][j] by {
            assert(m[r][j] == co.cell(ar, ms, r, j));
        }
        assert(m[r].len() == m.len() && all_numbers(c, m[r]));
        lemma_span_agrees(ar, row, m[r], w, w, 0, n);
        assert(b[r] == applied(ar, m, w)[r]);
        assert forall|j: int| n <= j < n + k implies #[trigger] m[r][j] == num(0) by {
            assert(m[r][j] == co.cell(ar, ms, r, j));
        }
        crate::exact_kriging::lemma_zero_tail(ar, c, m[r], w, n, n + k);
    }
    let values = values_of(co, ms);
    assert(values =~= co.values_at(ms));
    lemma_dot_is_span(ar, c, num(0), w, values, n);
    // The variance.
    lemma_dot_start(ar, c, w, b, n + k);
    lemma_dot_is_span(ar, c, num(0), w, b, n + k);
    lemma_span_agrees(ar, near, b, w, w, 0, n);
    lemma_span_closed(ar, c, b, w, 0, n);
    lemma_span_closed(ar, c, b, w, 0, n + k);
    closed(ar, c, span_sum(ar, b, w, 0, n + k), num(0));
    assert forall|j: int| n <= j < n + k implies #[trigger] b[j] == (if j == n {
        num(ONE)
    } else {
        num(0)
    }) by {}
    lemma_picks_one(ar, c, b, w, n, n, n + k);
    assert(all_numbers(c, near) && near.len() == ms.len());
    assert(all_numbers(c, w) && w.len() == ms.len() + co.datasets@.len());
}

/// A row that is one at `j` and zero elsewhere from `n` on adds what stands there.
proof fn lemma_picks_one<F: Fn(Op, Double, Double) -> Double>(
    ar: Arithmetic<F>,
    c: Numbers,
    row: Seq<Double>,
    w: Seq<Double>,
    n: int,
    j: int,
    hi: int,
)
    requires
        exact(ar, c),
        all_numbers(c, row),
        all_numbers(c, w),
        0 <= n <= hi,
        n <= j,
        hi <= row.len(),
        hi <= w.len(),
        forall|i: int|
            n <= i < hi ==> #[trigger] row[i] == (if i == j {
                num(ONE)
            } else {
                num(0)
            }),
    ensures
        span_sum(ar, row, w, 0, hi) == (if j < hi {
            ar.plus(span_sum(ar, row, w, 0, n), w[j])
        } else {
            span_sum(ar, row, w, 0, n)
        }),
    decreases hi,
{
    if hi > n {
        lemma_picks_one(ar, c, row, w, n, j, hi - 1);
        assert(c(w[hi - 1]));
        closed(ar, c, w[hi - 1], num(0));
        closed(ar, c, w[hi - 1], num(ONE));
        lemma_span_closed(ar, c, row, w, 0, n);
        lemma_span_closed(ar, c, row, w, 0, hi - 1);
        closed(ar, c, span_sum(ar, row, w, 0, hi - 1), num(0));
    }
}

/// Semivariances of the places with one of them, `own` with itself.
pub open spec fn semis_with<const D: usize, F: Fn(Op, Double, Double) -> Double, G: Fn([Double; D]) -> Double>(
    ar: Arithmetic<F>,
    model: Covariance<D, G>,
    places: Seq<Seq<Double>>,
    i: int,
    own: Double,
) -> Seq<Double> {
    Seq::new(
        places.len(),
        |j: int|
            if i == j {
                own
            } else {
                model.semivariance(ar.separation(places[i], places[j]))
            },
    )
}

/// Semivariances of the places with a target.
pub open spec fn semis_to<const D: usize, F: Fn(Op, Double, Double) -> Double, G: Fn([Double; D]) -> Double>(
    ar: Arithmetic<F>,
    model: Covariance<D, G>,
    places: Seq<Seq<Double>>,
    target: Seq<Double>,
) -> Seq<Double> {
    Seq::new(places.len(), |j: int| model.semivariance(ar.separation(places[j], target)))
}

/// Where the model has no sill, ordinary kriging balances semivariances: for every
/// conditioning point the weighted semivariances with the others and the multiplier make up
/// the semivariance with the target, the weights sum to one, the estimate is the values,
/// weighted, and the variance the weighted semivariances with the target and the multiplier.
pub proof fn power_kriging_balances_semivariances<'a, const D: usize, F: Fn(Op, Double, Double) -> Double, G: Fn([Double; D]) -> Double>(
    s: &Setting<'a, D, G>,
    ar: Arithmetic<F>,
    c: Numbers,
    nb: Seq<usize>,
    target: [Double; D],
    e: KrigingEstimate,
)
    requires
        exact(ar, c),
        symmetric(ar, *s.model),
        forall|h: Seq<Double>| c(#[trigger] s.model.semivariance(h)),
        s.model.semivariance(no_separation(D as nat)) == num(0),
        s.model.traits.has_power,
        s.config.method is Ordinary,
        nb.len() < usize::MAX,
        all_numbers(c, picked(s.data.attributes(), nb)),
        all_numbers(c, s.measurement_error@),
        s.kriged(ar, target, Seq::empty(), nb, Ok(e)),
    ensures
        exists|w: Seq<Double>| #[trigger]
            all_numbers(c, w) && w.len() == nb.len() + 1 && ({
                let n = nb.len() as int;
                let places = chosen(s.data.places(), nb);
                let near = semis_to(ar, *s.model, places, target@);
                &&& forall|i: int|
                    0 <= i < n ==> ar.plus(
                        span_sum(
                            ar,
                            semis_with(
                                ar,
                                *s.model,
                                places,
                                i,
                                or_zero(s.measurement_error@, nb[i] as int),
                            ),
                            w,
                            0,
                            n,
                        ),
                        w[n],
                    ) == #[trigger] near[i]
                &&& span_sum(ar, ones(nb.len()), w, 0, n) == num(ONE)
                &&& e.value == span_sum(ar, picked(s.data.attributes(), nb), w, 0, n)
                &&& e.variance == ar.plus(span_sum(ar, near, w, 0, n), w[n]).max(num(0))
                &&& e.lagrange == Some(w[n])
            }),
{
    let n = nb.len() as int;
    let m = s.lhs(ar, nb);
    let b = s.rhs(ar, nb, target@, Seq::empty());
    let places = chosen(s.data.places(), nb);
    let values = picked(s.data.attributes(), nb);
    let near = semis_to(ar, *s.model, places, target@);
    closed(ar, c, num(0), num(ONE));
    assert forall|h: Seq<Double>| c(#[trigger] s.model.entry(ar, h)) by {
        assert(c(s.model.semivariance(h)));
    }
    assert forall|i: int| 0 <= i < n implies c(#[trigger] s.error_at(nb[i] as int)) by {
        if nb[i] < s.measurement_error@.len() {
            assert(c(s.measurement_error@[nb[i] as int]));
        }
    }
    assert forall|r: int| 0 <= r < m.len() implies (#[trigger] m[r]).len() == m.len()
        && all_numbers(c, m[r]) by {
        assert forall|k: int| 0 <= k < m[r].len() implies c(#[trigger] m[r][k]) by {
            assert(m[r][k] == s.lhs_cell(ar, nb, r, k));
            if r < n && k < n {
                if r == k {
                    closed(ar, c, num(0), s.error_at(nb[r] as int));
                } else {
                    assert(c(s.model.entry(ar, s.gap(ar, nb, r, k))));
                }
            }
        }
    }
    assert forall|r: int| 0 <= r < b.len() implies c(#[trigger] b[r]) by {
        if r < n {
            assert(c(s.model.entry(ar, ar.separation(places[r], target@))));
        }
    }
    let w = choose|w: Seq<Double>| #[trigger]
        solution(ar, m, b, w) && e == s.weighted(ar, nb, w, b, s.top());
    elimination_satisfies_the_system(ar, c, m, b, w);
    assert(values =~= s.values_at(nb));
    assert forall|i: int| 0 <= i < n implies ar.plus(
        span_sum(
            ar,
            semis_with(
                ar,
                *s.model,
                places,
                i,
                or_zero(s.measurement_error@, nb[i] as int),
            ),
            w,
            0,
            n,
        ),
        w[n],
    ) == #[trigger] near[i] by {
        let row = semis_with(
            ar,
            *s.model,
            places,
            i,
            or_zero(s.measurement_error@, nb[i] as int),
        );
        assert forall|j: int| 0 <= j < n implies #[trigger] row[j] == m[i][j] by {
            assert(m[i][j] == s.lhs_cell(ar, nb, i, j));
            if i == j {
                closed(ar, c, s.error_at(nb[i] as int), num(0));
            }
            let (p, q) = (places[i], places[j]);
            assert(s.model.semivariance(ar.separation(p, q)) == s.model.semivariance(
                ar.separation(q, p),
            ));
        }
        lemma_row(ar, c, m, b, w, row, i, n);
        assert(m[i][n] == s.lhs_cell(ar, nb, i, n));
        closed(ar, c, w[n], num(ONE));
        assert(near[i] == b[i]);
    }
    let sums = ones(nb.len());
    assert forall|j: int| 0 <= j < n implies #[trigger] sums[j] == m[n][j] by {
        assert(m[n][j] == s.lhs_cell(ar, nb, n, j));
    }
    lemma_row(ar, c, m, b, w, sums, n, n);
    assert(m[n][n] == s.lhs_cell(ar, nb, n, n));
    closed(ar, c, w[n], num(0));
    closed(ar, c, w[n], num(ONE));
    closed(ar, c, span_sum(ar, sums, w, 0, n), num(0));
    lemma_span_agrees(ar, near, b, w, w, 0, n);
    lemma_span_closed(ar, c, b, w, 0, n);
    let reduction = span_sum(ar, b, w, 0, n);
    assert(nb.len() >= s.terms());
    lemma_dot_start(ar, c, w, values, n);
    lemma_dot_is_span(ar, c, num(0), w, values, n);
    lemma_span_closed(ar, c, values, w, 0, n);
    closed(ar, c, span_sum(ar, values, w, 0, n), num(0));
    lemma_dot_start(ar, c, w, b, n + 1);
    lemma_dot_is_span(ar, c, num(0), w, b, n + 1);
    closed(ar, c, reduction, w[n]);
    closed(ar, c, ar.plus(reduction, w[n]), num(0));
    assert(span_sum(ar, b, w, 0, n + 1) == ar.plus(reduction, ar.times(b[n], w[n])));
    assert(b[n] == num(ONE));
    assert(all_numbers(c, w) && w.len() == nb.len() + 1);
}

} // verus!

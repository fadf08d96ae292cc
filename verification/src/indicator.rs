//! Indicator estimates of a local distribution: one system per cutoff, or one
//! shared by all cutoffs; with soft data, one per cutoff in any case.

use vstd::prelude::*;

use crate::arith::{num, Arithmetic, MINUS_ZERO, Op};
use crate::ccdf::{corrected, order_corrections};
use crate::collocated::{estimate_collocated_stats, stats_outcome};
use crate::covariance::{gap_of, Covariance};
use crate::double::{Double, HIDDEN, ONE};
use crate::error::{insufficient, mismatch, mismatched, too_little, GeostatError};
use crate::kriging::copy_values;
use crate::linalg::{lemma_reported_is_singular, regular, reports_pivot, solution, solve};
use crate::matrix::{holdable, Matrix};
use crate::simple::{
    as_list, simple_weights, sk_cell, sk_rhs, sk_weights, steady_sill, STABILIZER,
};
use crate::text::{counts_text, digits};

verus! {

/// Bit pattern of the least sill whose root is taken.
pub const LEAST_SILL: u64 = 0x01A5_6E1F_C2F8_F359;

/// Indicator of a value: one where it is at most the cutoff, else zero.
pub open spec fn flag(v: Double, cutoff: Double) -> Double {
    if v.at_most(cutoff) {
        num(ONE)
    } else {
        num(0)
    }
}

/// Entry of the ordinary system.
pub open spec fn oik_cell<const D: usize, F: Fn(Op, Double, Double) -> Double, G: Fn([Double; D]) -> Double>(
    ar: Arithmetic<F>,
    model: Covariance<D, G>,
    places: Seq<[Double; D]>,
    nb: Seq<usize>,
    r: int,
    c: int,
) -> Double {
    let n = nb.len();
    if r < n && c < n {
        sk_cell(ar, model, places, nb, r, c)
    } else if r < n || c < n {
        num(ONE)
    } else {
        num(0)
    }
}

/// The ordinary system matrix: the simple one, with the constraint that weights
/// sum to one.
pub open spec fn oik_matrix<const D: usize, F: Fn(Op, Double, Double) -> Double, G: Fn([Double; D]) -> Double>(
    ar: Arithmetic<F>,
    model: Covariance<D, G>,
    places: Seq<[Double; D]>,
    nb: Seq<usize>,
) -> Seq<Seq<Double>> {
    let dim = nb.len() + 1;
    Seq::new(dim, |r: int| Seq::new(dim, |c: int| oik_cell(ar, model, places, nb, r, c)))
}

/// What the indicator weights of a neighborhood are.
pub open spec fn ik_weights<const D: usize, F: Fn(Op, Double, Double) -> Double, G: Fn([Double; D]) -> Double>(
    ar: Arithmetic<F>,
    model: Covariance<D, G>,
    places: Seq<[Double; D]>,
    nb: Seq<usize>,
    target: Seq<Double>,
    ordinary: bool,
    r: Result<Seq<Double>, GeostatError>,
) -> bool {
    if ordinary {
        let a = oik_matrix(ar, model, places, nb);
        if regular(ar, a) {
            r matches Ok(w) && solution(
                ar,
                a,
                sk_rhs(ar, model, places, nb, target).push(num(ONE)),
                w,
            )
        } else {
            r matches Err(e) && reports_pivot(ar, a, e)
        }
    } else {
        sk_weights(ar, model, places, nb, target, r)
    }
}

/// Indicators of values.
pub open spec fn flags(values: Seq<Double>, cutoff: Double) -> Seq<Double> {
    Seq::new(values.len(), |i: int| flag(values[i], cutoff))
}

/// Indicators of values, less a proportion.
pub open spec fn centered_flags<F: Fn(Op, Double, Double) -> Double>(
    ar: Arithmetic<F>,
    values: Seq<Double>,
    cutoff: Double,
    p: Double,
) -> Seq<Double> {
    Seq::new(values.len(), |i: int| ar.minus(flag(values[i], cutoff), p))
}

/// Estimate at one cutoff from weights: the weighted indicators for ordinary
/// kriging, the global proportion plus weighted deviations for simple kriging.
pub open spec fn ik_estimate<F: Fn(Op, Double, Double) -> Double>(
    ar: Arithmetic<F>,
    w: Seq<Double>,
    values: Seq<Double>,
    cutoff: Double,
    p: Double,
    ordinary: bool,
) -> Double {
    if ordinary {
        ar.dot_from(num(MINUS_ZERO), w, flags(values, cutoff), values.len() as int)
    } else {
        ar.dot_from(p, w, centered_flags(ar, values, cutoff, p), values.len() as int)
    }
}

/// Cutoffs, their global proportions and models.
pub struct Cutoffs<'a, const D: usize, G> {
    /// The cutoffs.
    pub values: &'a Vec<Double>,
    /// Global proportions, one per cutoff.
    pub props: &'a Vec<Double>,
    /// One model per cutoff, or a single one for all.
    pub models: &'a Vec<Covariance<D, G>>,
    /// Ordinary instead of simple indicator kriging.
    pub ordinary: bool,
}

impl<'a, const D: usize, G: Fn([Double; D]) -> Double> Cutoffs<'a, D, G> {
    /// One proportion per cutoff, and models that fit.
    pub open spec fn well_formed(&self) -> bool {
        &&& self.values@.len() > 0
        &&& self.props@.len() == self.values@.len()
        &&& (self.models@.len() == self.values@.len() || self.models@.len() == 1)
        &&& forall|k: int| 0 <= k < self.models@.len() ==> (#[trigger] self.models@[k]).total()
    }

    /// The model of a cutoff.
    pub open spec fn model(&self, k: int) -> Covariance<D, G> {
        if self.models@.len() == 1 {
            self.models@[0]
        } else {
            self.models@[k]
        }
    }

    /// The estimates at all cutoffs from the same weights.
    pub open spec fn estimates<F: Fn(Op, Double, Double) -> Double>(
        &self,
        ar: Arithmetic<F>,
        w: Seq<Double>,
        values: Seq<Double>,
    ) -> Seq<
        Double,
    > {
        Seq::new(
            self.values@.len(),
            |k: int| ik_estimate(ar, w, values, self.values@[k], self.props@[k], self.ordinary),
        )
    }

    /// What the weights for cutoff `k` are.
    pub open spec fn weighs<F: Fn(Op, Double, Double) -> Double>(
        &self,
        ar: Arithmetic<F>,
        places: Seq<[Double; D]>,
        nb: Seq<usize>,
        target: Seq<Double>,
        k: int,
        w: Result<Seq<Double>, GeostatError>,
    ) -> bool {
        ik_weights(ar, self.model(k), places, nb, target, self.ordinary, w)
    }

    /// The estimate at cutoff `k` follows from its weights.
    pub open spec fn one_from<F: Fn(Op, Double, Double) -> Double>(
        &self,
        ar: Arithmetic<F>,
        places: Seq<[Double; D]>,
        nb: Seq<usize>,
        values: Seq<Double>,
        target: Seq<Double>,
        k: int,
        f: Double,
    ) -> bool {
        exists|w: Seq<Double>| #[trigger]
            self.weighs(ar, places, nb, target, k, Ok(w)) && f == ik_estimate(
                ar,
                w,
                values,
                self.values@[k],
                self.props@[k],
                self.ordinary,
            )
    }

    /// Weights for cutoff `k` are found.
    pub open spec fn solved<F: Fn(Op, Double, Double) -> Double>(
        &self,
        ar: Arithmetic<F>,
        places: Seq<[Double; D]>,
        nb: Seq<usize>,
        target: Seq<Double>,
        k: int,
    ) -> bool {
        exists|w: Seq<Double>| #[trigger] self.weighs(ar, places, nb, target, k, Ok(w))
    }

    /// The first cutoff without weights is `k`, and `e` tells why.
    pub open spec fn fails_at<F: Fn(Op, Double, Double) -> Double>(
        &self,
        ar: Arithmetic<F>,
        places: Seq<[Double; D]>,
        nb: Seq<usize>,
        target: Seq<Double>,
        k: int,
        e: GeostatError,
    ) -> bool {
        &&& self.weighs(ar, places, nb, target, k, Err(e))
        &&& forall|j: int|
            0 <= j < k ==> #[trigger] self.solved(ar, places, nb, target, j)
    }

    /// What the estimates at the cutoffs are.
    pub open spec fn ccdf_outcome<F: Fn(Op, Double, Double) -> Double>(
        &self,
        ar: Arithmetic<F>,
        places: Seq<[Double; D]>,
        nb: Seq<usize>,
        values: Seq<Double>,
        target: Seq<Double>,
        r: Result<Seq<Double>, GeostatError>,
    ) -> bool {
        if self.models@.len() == 1 {
            exists|w: Result<Seq<Double>, GeostatError>| #[trigger]
                self.weighs(ar, places, nb, target, 0, w) && match w {
                    Err(e) => r == Err::<Seq<Double>, GeostatError>(e),
                    Ok(w) => r == Ok::<Seq<Double>, GeostatError>(
                        self.estimates(ar, w, values),
                    ),
                }
        } else {
            match r {
                Ok(ccdf) => ccdf.len() == self.values@.len() && forall|k: int|
                    0 <= k < ccdf.len() ==> self.one_from(
                        ar,
                        places,
                        nb,
                        values,
                        target,
                        k,
                        #[trigger] ccdf[k],
                    ),
                Err(e) => exists|k: int|
                    0 <= k < self.values@.len() && #[trigger] self.fails_at(
                        ar,
                        places,
                        nb,
                        target,
                        k,
                        e,
                    ),
            }
        }
    }

    /// What the local distribution is: the global proportions without
    /// neighbors, otherwise the indicator estimates with their order relations
    /// corrected.
    pub open spec fn local_outcome<F: Fn(Op, Double, Double) -> Double>(
        &self,
        ar: Arithmetic<F>,
        places: Seq<[Double; D]>,
        nb: Seq<usize>,
        values: Seq<Double>,
        target: Seq<Double>,
        r: Result<Seq<Double>, GeostatError>,
    ) -> bool {
        if nb.len() == 0 {
            r == Ok::<Seq<Double>, GeostatError>(self.props@)
        } else {
            exists|raw: Result<Seq<Double>, GeostatError>| #[trigger]
                self.ccdf_outcome(ar, places, nb, values, target, raw) && match raw {
                    Err(e) => r == Err::<Seq<Double>, GeostatError>(e),
                    Ok(v) => r == Ok::<Seq<Double>, GeostatError>(corrected(ar, v)),
                }
        }
    }
}

/// The places of a neighborhood are known, and its system fits in memory.
pub open spec fn near_ok(nb: Seq<usize>, n_places: nat) -> bool {
    &&& holdable(nb.len() + 1, nb.len() + 1)
    &&& nb.len() < usize::MAX
    &&& forall|i: int| 0 <= i < nb.len() ==> (#[trigger] nb[i]) < n_places
}

/// Indicator-kriging weights for one target's neighborhood under a single
/// model. The simple system is positive definite; the ordinary one adds the
/// constraint that weights sum to one.
fn indicator_weights<const D: usize, F: Fn(Op, Double, Double) -> Double, G: Fn([Double; D]) -> Double>(
    coords: &Vec<[Double; D]>,
    nb: &Vec<usize>,
    model: &Covariance<D, G>,
    target: &[Double; D],
    ordinary: bool,
    ar: &Arithmetic<F>,
) -> (r: Result<Vec<Double>, GeostatError>)
    requires
        ar.total(),
        model.total(),
        near_ok(nb@, coords@.len()),
    ensures
        ik_weights(*ar, *model, coords@, nb@, target@, ordinary, as_list(r)),
        r matches Ok(w) ==> w.len() >= nb.len(),
{
    let n: usize = nb.len();
    if !ordinary {
        proof {
            assert(n * n <= (n + 1) * (n + 1)) by (nonlinear_arith);
        }
        let (w, _b): (Result<Vec<Double>, GeostatError>, Vec<Double>) = simple_weights(
            coords,
            nb,
            model,
            target,
            ar,
        );
        return w;
    }
    let ghost want = oik_matrix(*ar, *model, coords@, nb@);
    let diagonal: Double = ar.plus(model.sill, ar.times(model.sill, num(STABILIZER)));
    let mut rows: Vec<Vec<Double>> = Vec::new();
    let mut b: Vec<Double> = Vec::new();
    for r in 0..n + 1
        invariant
            ar.total(),
            model.total(),
            near_ok(nb@, coords@.len()),
            n == nb.len(),
            diagonal == steady_sill(*ar, model.sill),
            want == oik_matrix(*ar, *model, coords@, nb@),
            rows.len() == r,
            b.len() == r,
            forall|j: int| 0 <= j < r ==> (#[trigger] rows@[j])@ == want[j],
            forall|j: int|
                0 <= j < r ==> #[trigger] b@[j] == sk_rhs(
                    *ar,
                    *model,
                    coords@,
                    nb@,
                    target@,
                ).push(num(ONE))[j],
    {
        let mut row: Vec<Double> = Vec::new();
        for c in 0..n + 1
            invariant
                ar.total(),
                model.total(),
                near_ok(nb@, coords@.len()),
                n == nb.len(),
                r <= n,
                diagonal == steady_sill(*ar, model.sill),
                row.len() == c,
                forall|j: int|
                    0 <= j < c ==> #[trigger] row@[j] == oik_cell(
                        *ar,
                        *model,
                        coords@,
                        nb@,
                        r as int,
                        j,
                    ),
        {
            let v: Double = if r < n && c < n {
                if r == c {
                    diagonal
                } else {
                    model.remaining_dh(gap_of(coords, nb, r, c, ar), ar)
                }
            } else if r < n || c < n {
                num(ONE)
            } else {
                Double::zero()
            };
            row.push(v);
        }
        assert(row@ =~= want[r as int]);
        rows.push(row);
        if r < n {
            b.push(model.covariance_between(&coords[nb[r]], target, ar));
        } else {
            b.push(num(ONE));
        }
    }
    assert(b@ =~= sk_rhs(*ar, *model, coords@, nb@, target@).push(num(ONE)));
    let a: Matrix = Matrix::from_rows(&rows, n + 1);
    assert(a.rows() =~= want);
    let r: Result<Vec<Double>, GeostatError> = solve(a, b, ar);
    proof {
        if r is Err {
            lemma_reported_is_singular(*ar, want, r->Err_0);
        }
    }
    r
}

/// Estimate at one cutoff from weights.
fn indicator_estimate<F: Fn(Op, Double, Double) -> Double>(
    w: &Vec<Double>,
    values: &Vec<Double>,
    cutoff: Double,
    p: Double,
    ordinary: bool,
    ar: &Arithmetic<F>,
) -> (f: Double)
    requires
        ar.total(),
        w.len() >= values.len(),
    ensures
        f == ik_estimate(*ar, w@, values@, cutoff, p, ordinary),
{
    let one: Double = num(ONE);
    let zero: Double = Double::zero();
    let mut ind: Vec<Double> = Vec::new();
    for i in 0..values.len()
        invariant
            ar.total(),
            one == num(ONE),
            zero == num(0),
            ind.len() == i,
            forall|j: int|
                0 <= j < i ==> #[trigger] ind@[j] == (if ordinary {
                    flag(values@[j], cutoff)
                } else {
                    ar.minus(flag(values@[j], cutoff), p)
                }),
    {
        let f: Double = if values[i].le(cutoff) {
            one
        } else {
            zero
        };
        if ordinary {
            ind.push(f);
        } else {
            ind.push(ar.minus(f, p));
        }
    }
    if ordinary {
        assert(ind@ =~= flags(values@, cutoff));
        ar.dot(num(MINUS_ZERO), w, &ind, values.len())
    } else {
        assert(ind@ =~= centered_flags(*ar, values@, cutoff, p));
        ar.dot(p, w, &ind, values.len())
    }
}

impl<'a, const D: usize, G: Fn([Double; D]) -> Double> Cutoffs<'a, D, G> {
    /// Estimates at every cutoff for one target: shares one set of weights
    /// across all cutoffs with a single model, or uses one model per cutoff.
    pub fn indicator_ccdf<F: Fn(Op, Double, Double) -> Double>(
        &self,
        coords: &Vec<[Double; D]>,
        nb: &Vec<usize>,
        values: &Vec<Double>,
        target: &[Double; D],
        ar: &Arithmetic<F>,
    ) -> (r: Result<Vec<Double>, GeostatError>)
        requires
            self.well_formed(),
            ar.total(),
            near_ok(nb@, coords@.len()),
            values.len() == nb.len(),
        ensures
            self.ccdf_outcome(*ar, coords@, nb@, values@, target@, as_list(r)),
            r matches Ok(ccdf) ==> ccdf.len() == self.values@.len(),
    {
        let nc: usize = self.values.len();
        let mut ccdf: Vec<Double> = Vec::new();
        if self.models.len() == 1 {
            let first: Result<Vec<Double>, GeostatError> = indicator_weights(
                coords,
                nb,
                &self.models[0],
                target,
                self.ordinary,
                ar,
            );
            assert(self.weighs(*ar, coords@, nb@, target@, 0, as_list(first)));
            match first {
                Err(e) => {
                    return Err(e);
                },
                Ok(w) => {
                    for k in 0..nc
                        invariant
                            self.well_formed(),
                            ar.total(),
                            nc == self.values@.len(),
                            w.len() >= values.len(),
                            ccdf@ =~= self.estimates(*ar, w@, values@).take(k as int),
                    {
                        ccdf.push(
                            indicator_estimate(
                                &w,
                                values,
                                self.values[k],
                                self.props[k],
                                self.ordinary,
                                ar,
                            ),
                        );
                    }
                    assert(ccdf@ =~= self.estimates(*ar, w@, values@));
                },
            }
        } else {
            for k in 0..nc
                invariant
                    self.well_formed(),
                    ar.total(),
                    near_ok(nb@, coords@.len()),
                    values.len() == nb.len(),
                    nc == self.values@.len(),
                    self.models@.len() == nc,
                    self.models@.len() != 1,
                    ccdf.len() == k,
                    forall|j: int|
                        0 <= j < k ==> #[trigger] self.solved(*ar, coords@, nb@, target@, j),
                    forall|j: int|
                        0 <= j < k ==> self.one_from(
                            *ar,
                            coords@,
                            nb@,
                            values@,
                            target@,
                            j,
                            #[trigger] ccdf@[j],
                        ),
            {
                let solved: Result<Vec<Double>, GeostatError> = indicator_weights(
                    coords,
                    nb,
                    &self.models[k],
                    target,
                    self.ordinary,
                    ar,
                );
                assert(self.weighs(*ar, coords@, nb@, target@, k as int, as_list(solved)));
                match solved {
                    Err(e) => {
                        assert(self.fails_at(*ar, coords@, nb@, target@, k as int, e));
                        return Err(e);
                    },
                    Ok(w) => {
                        let f: Double = indicator_estimate(
                            &w,
                            values,
                            self.values[k],
                            self.props[k],
                            self.ordinary,
                            ar,
                        );
                        assert(self.one_from(
                            *ar,
                            coords@,
                            nb@,
                            values@,
                            target@,
                            k as int,
                            f,
                        ));
                        ccdf.push(f);
                    },
                }
            }
        }
        Ok(ccdf)
    }

    /// The local distribution at one target.
    pub fn local_ccdf<F: Fn(Op, Double, Double) -> Double>(
        &self,
        coords: &Vec<[Double; D]>,
        nb: &Vec<usize>,
        values: &Vec<Double>,
        target: &[Double; D],
        ar: &Arithmetic<F>,
    ) -> (r: Result<Vec<Double>, GeostatError>)
        requires
            self.well_formed(),
            ar.total(),
            near_ok(nb@, coords@.len()),
            values.len() == nb.len(),
        ensures
            self.local_outcome(*ar, coords@, nb@, values@, target@, as_list(r)),
            r matches Ok(ccdf) ==> ccdf.len() == self.values@.len(),
    {
        if nb.len() == 0 {
            return Ok(copy_values(self.props));
        }
        let raw: Result<Vec<Double>, GeostatError> = self.indicator_ccdf(
            coords,
            nb,
            values,
            target,
            ar,
        );
        assert(self.ccdf_outcome(*ar, coords@, nb@, values@, target@, as_list(raw)));
        match raw {
            Err(e) => Err(e),
            Ok(mut ccdf) => {
                order_corrections(&mut ccdf, ar);
                Ok(ccdf)
            },
        }
    }
}

/// Markov-Bayes calibration for one cutoff: how the hard indicator and a
/// collocated soft datum go together, from calibration pairs.
#[derive(Clone, Copy, Debug, PartialEq, Eq, Structural)]
pub struct MarkovBayesCalibration {
    /// Correlation between the hard indicator and the soft datum, in `[-1, 1]`.
    pub rho: Double,
    /// Marginal standard deviation of the soft datum.
    pub sigma_soft: Double,
    /// Marginal mean of the soft datum at the calibration pairs. Each datum
    /// enters the system as a deviation from its own mean, and this is the
    /// soft datum's, not the hard indicator's global proportion.
    pub mean_soft: Double,
}

/// All rows have `n` entries.
pub open spec fn rows_have(rows: Seq<Vec<Double>>, n: nat) -> bool {
    forall|i: int| 0 <= i < rows.len() ==> (#[trigger] rows[i])@.len() == n
}

/// Whether all rows have `n` entries.
pub fn all_rows_have(rows: &Vec<Vec<Double>>, n: usize) -> (b: bool)
    ensures
        b == rows_have(rows@, n as nat),
{
    for i in 0..rows.len()
        invariant
            forall|j: int| 0 <= j < i ==> (#[trigger] rows@[j])@.len() == n,
    {
        if rows[i].len() != n {
            return false;
        }
    }
    true
}

/// Column `k` of the rows.
pub open spec fn column(rows: Seq<Vec<Double>>, k: int) -> Seq<Double> {
    rows.map(|_i: int, row: Vec<Double>| row@[k])
}

fn column_of(rows: &Vec<Vec<Double>>, k: usize, n: usize) -> (c: Vec<Double>)
    requires
        rows_have(rows@, n as nat),
        k < n,
    ensures
        c@ == column(rows@, k as int),
{
    let mut c: Vec<Double> = Vec::new();
    for i in 0..rows.len()
        invariant
            rows_have(rows@, n as nat),
            k < n,
            c@ =~= column(rows@.take(i as int), k as int),
    {
        assert(rows@[i as int]@.len() == n);
        c.push(rows[i][k]);
    }
    assert(rows@.take(rows.len() as int) =~= rows@);
    c
}

/// The calibration rows can be used.
pub open spec fn calibration_ok(hard: Seq<Vec<Double>>, soft: Seq<Vec<Double>>) -> bool {
    &&& hard.len() == soft.len()
    &&& hard.len() > 0
    &&& hard[0]@.len() > 0
    &&& rows_have(hard, hard[0]@.len())
    &&& rows_have(soft, hard[0]@.len())
}

/// Why not: the first check that fails.
pub open spec fn calibration_refused(
    hard: Seq<Vec<Double>>,
    soft: Seq<Vec<Double>>,
    e: GeostatError,
) -> bool {
    if hard.len() != soft.len() {
        mismatch(
            e,
            digits(hard.len()) + " hard calibration rows vs "@ + digits(soft.len())
                + " soft rows"@,
        )
    } else if hard.len() == 0 {
        insufficient(e, "at least one calibration pair required"@)
    } else {
        mismatch(
            e,
            "all calibration rows must share the same (nonzero) number of cutoffs"@,
        )
    }
}

/// The calibration of one cutoff from its columns.
pub open spec fn calibrated<F: Fn(Op, Double, Double) -> Double>(
    ar: Arithmetic<F>,
    hard: Seq<Vec<Double>>,
    soft: Seq<Vec<Double>>,
    k: int,
    c: Result<MarkovBayesCalibration, GeostatError>,
) -> bool {
    exists|s: Result<(Double, Double, Double), GeostatError>| #[trigger]
        stats_outcome(ar, column(hard, k), column(soft, k), s) && match s {
            Err(e) => c == Err::<MarkovBayesCalibration, GeostatError>(e),
            Ok(s) => c == Ok::<MarkovBayesCalibration, GeostatError>(
                MarkovBayesCalibration {
                    rho: s.0,
                    sigma_soft: s.2,
                    mean_soft: ar.average_of(column(soft, k)),
                },
            ),
        }
}

/// Cutoff `k` can be calibrated.
pub open spec fn calibrates<F: Fn(Op, Double, Double) -> Double>(
    ar: Arithmetic<F>,
    hard: Seq<Vec<Double>>,
    soft: Seq<Vec<Double>>,
    k: int,
) -> bool {
    exists|c: MarkovBayesCalibration| #[trigger] calibrated(ar, hard, soft, k, Ok(c))
}

/// Cutoff `k` is the first that cannot be calibrated, for reason `e`.
pub open spec fn calibration_fails<F: Fn(Op, Double, Double) -> Double>(
    ar: Arithmetic<F>,
    hard: Seq<Vec<Double>>,
    soft: Seq<Vec<Double>>,
    k: int,
    e: GeostatError,
) -> bool {
    &&& calibrated(ar, hard, soft, k, Err(e))
    &&& forall|j: int|
        0 <= j < k ==> #[trigger] calibrates(ar, hard, soft, j)
}

/// Estimates one calibration per cutoff from collocated pairs: `hard[i][k]` is
/// the 0/1 indicator and `soft[i][k]` the soft probability at location `i` for
/// cutoff `k`.
pub fn calibrate_markov_bayes<F: Fn(Op, Double, Double) -> Double>(
    hard: &Vec<Vec<Double>>,
    soft: &Vec<Vec<Double>>,
    ar: &Arithmetic<F>,
) -> (r: Result<Vec<MarkovBayesCalibration>, GeostatError>)
    requires
        ar.total(),
        hard.len() < 2 * HIDDEN,
    ensures
        match r {
            Ok(out) => calibration_ok(hard@, soft@) && out@.len() == hard@[0]@.len()
                && forall|k: int|
                0 <= k < out@.len() ==> calibrated(*ar, hard@, soft@, k, Ok(#[trigger] out@[k])),
            Err(e) => if !calibration_ok(hard@, soft@) {
                calibration_refused(hard@, soft@, e)
            } else {
                exists|k: int|
                    0 <= k < hard@[0]@.len() && #[trigger] calibration_fails(
                        *ar,
                        hard@,
                        soft@,
                        k,
                        e,
                    )
            },
        },
{
    if hard.len() != soft.len() {
        return Err(
            mismatched(
                counts_text(hard.len(), " hard calibration rows vs ", soft.len(), " soft rows"),
            ),
        );
    }
    if hard.len() == 0 {
        return Err(too_little("at least one calibration pair required"));
    }
    let nc: usize = hard[0].len();
    if nc == 0 || !all_rows_have(hard, nc) || !all_rows_have(soft, nc) {
        return Err(
            mismatched(
                "all calibration rows must share the same (nonzero) number of cutoffs".to_owned(),
            ),
        );
    }
    let mut out: Vec<MarkovBayesCalibration> = Vec::new();
    for k in 0..nc
        invariant
            ar.total(),
            hard.len() < 2 * HIDDEN,
            calibration_ok(hard@, soft@),
            nc == hard@[0]@.len(),
            out.len() == k,
            forall|j: int|
                0 <= j < k ==> #[trigger] calibrates(*ar, hard@, soft@, j),
            forall|j: int|
                0 <= j < k ==> calibrated(*ar, hard@, soft@, j, Ok(#[trigger] out@[j])),
    {
        let h: Vec<Double> = column_of(hard, k, nc);
        let s: Vec<Double> = column_of(soft, k, nc);
        let stats: Result<(Double, Double, Double), GeostatError> = estimate_collocated_stats(
            &h,
            &s,
            ar,
        );
        assert(stats_outcome(*ar, column(hard@, k as int), column(soft@, k as int), stats));
        match stats {
            Err(e) => {
                assert(calibrated(*ar, hard@, soft@, k as int, Err(e)));
                assert(calibration_fails(*ar, hard@, soft@, k as int, e));
                return Err(e);
            },
            Ok((rho, _sigma_hard, sigma_soft)) => {
                let c: MarkovBayesCalibration = MarkovBayesCalibration {
                    rho,
                    sigma_soft,
                    mean_soft: ar.mean(&s),
                };
                assert(calibrated(*ar, hard@, soft@, k as int, Ok(c)));
                out.push(c);
            },
        }
    }
    Ok(out)
}

/// Standard deviation of the hard indicator.
pub open spec fn indicator_sigma<F: Fn(Op, Double, Double) -> Double>(
    ar: Arithmetic<F>,
    sill: Double,
) -> Double {
    ar.sqrt(sill.max(num(LEAST_SILL)))
}

/// Covariance of the hard indicator and the soft datum at a separation.
pub open spec fn soft_cross<const D: usize, F: Fn(Op, Double, Double) -> Double, G: Fn([Double; D]) -> Double>(
    ar: Arithmetic<F>,
    model: Covariance<D, G>,
    calib: MarkovBayesCalibration,
    h: Seq<Double>,
) -> Double {
    ar.times(
        ar.times(calib.rho, ar.over(calib.sigma_soft, indicator_sigma(ar, model.sill))),
        model.remaining(ar, h),
    )
}

/// Entry of the system with the soft datum.
pub open spec fn soft_cell<const D: usize, F: Fn(Op, Double, Double) -> Double, G: Fn([Double; D]) -> Double>(
    ar: Arithmetic<F>,
    model: Covariance<D, G>,
    calib: MarkovBayesCalibration,
    places: Seq<[Double; D]>,
    nb: Seq<usize>,
    target: Seq<Double>,
    r: int,
    c: int,
) -> Double {
    let n = nb.len();
    if r < n && c < n {
        sk_cell(ar, model, places, nb, r, c)
    } else if r < n {
        soft_cross(ar, model, calib, ar.separation(places[nb[r] as int]@, target))
    } else if c < n {
        soft_cross(ar, model, calib, ar.separation(places[nb[c] as int]@, target))
    } else {
        ar.plus(
            ar.times(calib.sigma_soft, calib.sigma_soft),
            ar.times(model.sill, num(STABILIZER)),
        )
    }
}

/// The system matrix with the soft datum.
pub open spec fn soft_matrix<const D: usize, F: Fn(Op, Double, Double) -> Double, G: Fn([Double; D]) -> Double>(
    ar: Arithmetic<F>,
    model: Covariance<D, G>,
    calib: MarkovBayesCalibration,
    places: Seq<[Double; D]>,
    nb: Seq<usize>,
    target: Seq<Double>,
) -> Seq<Seq<Double>> {
    let dim = nb.len() + 1;
    Seq::new(
        dim,
        |r: int| Seq::new(dim, |c: int| soft_cell(ar, model, calib, places, nb, target, r, c)),
    )
}

/// Right-hand side with the soft datum.
pub open spec fn soft_rhs<const D: usize, F: Fn(Op, Double, Double) -> Double, G: Fn([Double; D]) -> Double>(
    ar: Arithmetic<F>,
    model: Covariance<D, G>,
    calib: MarkovBayesCalibration,
    places: Seq<[Double; D]>,
    nb: Seq<usize>,
    target: Seq<Double>,
) -> Seq<Double> {
    sk_rhs(ar, model, places, nb, target).push(
        ar.times(ar.times(calib.rho, calib.sigma_soft), indicator_sigma(ar, model.sill)),
    )
}

/// What the weights with the soft datum are.
pub open spec fn soft_weights<const D: usize, F: Fn(Op, Double, Double) -> Double, G: Fn([Double; D]) -> Double>(
    ar: Arithmetic<F>,
    model: Covariance<D, G>,
    calib: MarkovBayesCalibration,
    places: Seq<[Double; D]>,
    nb: Seq<usize>,
    target: Seq<Double>,
    r: Result<Seq<Double>, GeostatError>,
) -> bool {
    let a = soft_matrix(ar, model, calib, places, nb, target);
    if regular(ar, a) {
        r matches Ok(w) && solution(
            ar,
            a,
            soft_rhs(ar, model, calib, places, nb, target),
            w,
        )
    } else {
        r matches Err(e) && reports_pivot(ar, a, e)
    }
}

/// Estimate at one cutoff with the soft datum, which deviates from its own
/// mean.
pub open spec fn soft_estimate<F: Fn(Op, Double, Double) -> Double>(
    ar: Arithmetic<F>,
    w: Seq<Double>,
    values: Seq<Double>,
    cutoff: Double,
    p: Double,
    soft: Double,
    mean_soft: Double,
) -> Double {
    ar.plus(
        ik_estimate(ar, w, values, cutoff, p, false),
        ar.times(w[values.len() as int], ar.minus(soft, mean_soft)),
    )
}

/// Estimate at one cutoff from weights, with a soft datum: each datum enters as a
/// deviation from its own mean.
pub fn indicator_estimate_soft<F: Fn(Op, Double, Double) -> Double>(
    w: &Vec<Double>,
    values: &Vec<Double>,
    cutoff: Double,
    p: Double,
    soft: Double,
    mean_soft: Double,
    ar: &Arithmetic<F>,
) -> (f: Double)
    requires
        ar.total(),
        w@.len() > values@.len(),
    ensures
        f == soft_estimate(*ar, w@, values@, cutoff, p, soft, mean_soft),
{
    let hard: Double = indicator_estimate(w, values, cutoff, p, false, ar);
    ar.plus(hard, ar.times(w[values.len()], ar.minus(soft, mean_soft)))
}

/// Indicator-kriging weights with one collocated soft datum: extends the hard
/// system by one row and column for the soft term, whose cross-covariance
/// follows the hard indicator's own spatial shape.
fn indicator_weights_soft<const D: usize, F: Fn(Op, Double, Double) -> Double, G: Fn([Double; D]) -> Double>(
    coords: &Vec<[Double; D]>,
    nb: &Vec<usize>,
    model: &Covariance<D, G>,
    target: &[Double; D],
    calib: MarkovBayesCalibration,
    ar: &Arithmetic<F>,
) -> (r: Result<Vec<Double>, GeostatError>)
    requires
        ar.total(),
        model.total(),
        near_ok(nb@, coords@.len()),
    ensures
        soft_weights(*ar, *model, calib, coords@, nb@, target@, as_list(r)),
        r matches Ok(w) ==> w.len() == nb.len() + 1,
{
    let n: usize = nb.len();
    let ghost want = soft_matrix(*ar, *model, calib, coords@, nb@, target@);
    let ghost wanted = soft_rhs(*ar, *model, calib, coords@, nb@, target@);
    let stabilizer: Double = ar.times(model.sill, num(STABILIZER));
    let diagonal: Double = ar.plus(model.sill, stabilizer);
    let sigma: Double = ar.sqrt(model.sill.max(num(LEAST_SILL)));
    let slope: Double = ar.times(calib.rho, ar.over(calib.sigma_soft, sigma));
    let mut rows: Vec<Vec<Double>> = Vec::new();
    let mut b: Vec<Double> = Vec::new();
    for r in 0..n + 1
        invariant
            ar.total(),
            model.total(),
            near_ok(nb@, coords@.len()),
            n == nb.len(),
            stabilizer == ar.times(model.sill, num(STABILIZER)),
            diagonal == steady_sill(*ar, model.sill),
            sigma == indicator_sigma(*ar, model.sill),
            slope == ar.times(calib.rho, ar.over(calib.sigma_soft, sigma)),
            want == soft_matrix(*ar, *model, calib, coords@, nb@, target@),
            wanted == soft_rhs(*ar, *model, calib, coords@, nb@, target@),
            rows.len() == r,
            b.len() == r,
            forall|j: int| 0 <= j < r ==> (#[trigger] rows@[j])@ == want[j],
            forall|j: int| 0 <= j < r ==> #[trigger] b@[j] == wanted[j],
    {
        let mut row: Vec<Double> = Vec::new();
        for c in 0..n + 1
            invariant
                ar.total(),
                model.total(),
                near_ok(nb@, coords@.len()),
                n == nb.len(),
                r <= n,
                stabilizer == ar.times(model.sill, num(STABILIZER)),
                diagonal == steady_sill(*ar, model.sill),
                sigma == indicator_sigma(*ar, model.sill),
                slope == ar.times(calib.rho, ar.over(calib.sigma_soft, sigma)),
                row.len() == c,
                forall|j: int|
                    0 <= j < c ==> #[trigger] row@[j] == soft_cell(
                        *ar,
                        *model,
                        calib,
                        coords@,
                        nb@,
                        target@,
                        r as int,
                        j,
                    ),
        {
            let v: Double = if r < n && c < n {
                if r == c {
                    diagonal
                } else {
                    model.remaining_dh(gap_of(coords, nb, r, c, ar), ar)
                }
            } else if r < n || c < n {
                let i: usize = if r < n {
                    nb[r]
                } else {
                    nb[c]
                };
                ar.times(slope, model.covariance_between(&coords[i], target, ar))
            } else {
                ar.plus(ar.times(calib.sigma_soft, calib.sigma_soft), stabilizer)
            };
            row.push(v);
        }
        assert(row@ =~= want[r as int]);
        rows.push(row);
        if r < n {
            b.push(model.covariance_between(&coords[nb[r]], target, ar));
        } else {
            b.push(ar.times(ar.times(calib.rho, calib.sigma_soft), sigma));
        }
    }
    assert(b@ =~= wanted);
    let a: Matrix = Matrix::from_rows(&rows, n + 1);
    assert(a.rows() =~= want);
    let r: Result<Vec<Double>, GeostatError> = solve(a, b, ar);
    proof {
        if r is Err {
            lemma_reported_is_singular(*ar, want, r->Err_0);
        }
    }
    r
}

impl<'a, const D: usize, G: Fn([Double; D]) -> Double> Cutoffs<'a, D, G> {
    /// What the weights for cutoff `k` with the soft datum are.
    pub open spec fn weighs_soft<F: Fn(Op, Double, Double) -> Double>(
        &self,
        ar: Arithmetic<F>,
        places: Seq<[Double; D]>,
        nb: Seq<usize>,
        target: Seq<Double>,
        calib: Seq<MarkovBayesCalibration>,
        k: int,
        w: Result<Seq<Double>, GeostatError>,
    ) -> bool {
        soft_weights(ar, self.model(k), calib[k], places, nb, target, w)
    }

    /// The estimate at cutoff `k` follows from its weights.
    pub open spec fn one_from_soft<F: Fn(Op, Double, Double) -> Double>(
        &self,
        ar: Arithmetic<F>,
        places: Seq<[Double; D]>,
        nb: Seq<usize>,
        values: Seq<Double>,
        target: Seq<Double>,
        soft: Seq<Double>,
        calib: Seq<MarkovBayesCalibration>,
        k: int,
        f: Double,
    ) -> bool {
        exists|w: Seq<Double>| #[trigger]
            self.weighs_soft(ar, places, nb, target, calib, k, Ok(w)) && f == soft_estimate(
                ar,
                w,
                values,
                self.values@[k],
                self.props@[k],
                soft[k],
                calib[k].mean_soft,
            )
    }

    /// Weights for cutoff `k` with the soft datum are found.
    pub open spec fn solved_soft<F: Fn(Op, Double, Double) -> Double>(
        &self,
        ar: Arithmetic<F>,
        places: Seq<[Double; D]>,
        nb: Seq<usize>,
        target: Seq<Double>,
        calib: Seq<MarkovBayesCalibration>,
        k: int,
    ) -> bool {
        exists|w: Seq<Double>| #[trigger]
            self.weighs_soft(ar, places, nb, target, calib, k, Ok(w))
    }

    /// The first cutoff without weights is `k`, and `e` tells why.
    pub open spec fn fails_soft_at<F: Fn(Op, Double, Double) -> Double>(
        &self,
        ar: Arithmetic<F>,
        places: Seq<[Double; D]>,
        nb: Seq<usize>,
        target: Seq<Double>,
        calib: Seq<MarkovBayesCalibration>,
        k: int,
        e: GeostatError,
    ) -> bool {
        &&& self.weighs_soft(ar, places, nb, target, calib, k, Err(e))
        &&& forall|j: int|
            0 <= j < k ==> #[trigger] self.solved_soft(ar, places, nb, target, calib, j)
    }

    /// What the estimates at the cutoffs with soft data are.
    pub open spec fn soft_outcome<F: Fn(Op, Double, Double) -> Double>(
        &self,
        ar: Arithmetic<F>,
        places: Seq<[Double; D]>,
        nb: Seq<usize>,
        values: Seq<Double>,
        target: Seq<Double>,
        soft: Seq<Double>,
        calib: Seq<MarkovBayesCalibration>,
        r: Result<Seq<Double>, GeostatError>,
    ) -> bool {
        match r {
            Ok(ccdf) => ccdf.len() == self.values@.len() && forall|k: int|
                0 <= k < ccdf.len() ==> self.one_from_soft(
                    ar,
                    places,
                    nb,
                    values,
                    target,
                    soft,
                    calib,
                    k,
                    #[trigger] ccdf[k],
                ),
            Err(e) => exists|k: int|
                0 <= k < self.values@.len() && #[trigger] self.fails_soft_at(
                    ar,
                    places,
                    nb,
                    target,
                    calib,
                    k,
                    e,
                ),
        }
    }

    /// Estimates at every cutoff for one target with one collocated soft datum
    /// per cutoff. The calibration is specific to the cutoff, so weights are
    /// found once per cutoff even where the model is shared.
    pub fn indicator_ccdf_soft<F: Fn(Op, Double, Double) -> Double>(
        &self,
        coords: &Vec<[Double; D]>,
        nb: &Vec<usize>,
        values: &Vec<Double>,
        target: &[Double; D],
        soft: &Vec<Double>,
        calib: &Vec<MarkovBayesCalibration>,
        ar: &Arithmetic<F>,
    ) -> (r: Result<Vec<Double>, GeostatError>)
        requires
            self.well_formed(),
            ar.total(),
            near_ok(nb@, coords@.len()),
            values.len() == nb.len(),
            soft.len() == self.values@.len(),
            calib.len() == self.values@.len(),
        ensures
            self.soft_outcome(*ar, coords@, nb@, values@, target@, soft@, calib@, as_list(r)),
            r matches Ok(ccdf) ==> ccdf.len() == self.values@.len(),
    {
        let nc: usize = self.values.len();
        let n: usize = nb.len();
        let mut ccdf: Vec<Double> = Vec::new();
        for k in 0..nc
            invariant
                self.well_formed(),
                ar.total(),
                near_ok(nb@, coords@.len()),
                n == nb.len(),
                values.len() == nb.len(),
                nc == self.values@.len(),
                soft.len() == nc,
                calib.len() == nc,
                ccdf.len() == k,
                forall|j: int|
                    0 <= j < k ==> #[trigger] self.solved_soft(*ar, coords@, nb@, target@, calib@, j),
                forall|j: int|
                    0 <= j < k ==> self.one_from_soft(
                        *ar,
                        coords@,
                        nb@,
                        values@,
                        target@,
                        soft@,
                        calib@,
                        j,
                        #[trigger] ccdf@[j],
                    ),
        {
            let m: usize = if self.models.len() == 1 {
                0
            } else {
                k
            };
            let solved: Result<Vec<Double>, GeostatError> = indicator_weights_soft(
                coords,
                nb,
                &self.models[m],
                target,
                calib[k],
                ar,
            );
            assert(self.weighs_soft(
                *ar,
                coords@,
                nb@,
                target@,
                calib@,
                k as int,
                as_list(solved),
            ));
            match solved {
                Err(e) => {
                    assert(self.fails_soft_at(*ar, coords@, nb@, target@, calib@, k as int, e));
                    return Err(e);
                },
                Ok(w) => {
                    let f: Double = indicator_estimate_soft(
                        &w,
                        values,
                        self.values[k],
                        self.props[k],
                        soft[k],
                        calib[k].mean_soft,
                        ar,
                    );
                    assert(self.one_from_soft(
                        *ar,
                        coords@,
                        nb@,
                        values@,
                        target@,
                        soft@,
                        calib@,
                        k as int,
                        f,
                    ));
                    ccdf.push(f);
                },
            }
        }
        Ok(ccdf)
    }
}

/// Indicator weights that are found are the only outcome that there can be.
pub proof fn ik_weights_are_unique<const D: usize, F: Fn(Op, Double, Double) -> Double, G: Fn([Double; D]) -> Double>(
    ar: Arithmetic<F>,
    model: Covariance<D, G>,
    places: Seq<[Double; D]>,
    nb: Seq<usize>,
    target: Seq<Double>,
    ordinary: bool,
    w: Seq<Double>,
    r: Result<Seq<Double>, GeostatError>,
)
    requires
        ik_weights(ar, model, places, nb, target, ordinary, Ok(w)),
        ik_weights(ar, model, places, nb, target, ordinary, r),
    ensures
        r == Ok::<Seq<Double>, GeostatError>(w),
{
    let b = sk_rhs(ar, model, places, nb, target);
    if ordinary {
        let a = oik_matrix(ar, model, places, nb);
        crate::linalg::solution_is_unique(ar, a, b.push(num(ONE)), w, r->Ok_0);
    } else {
        let a = crate::simple::sk_matrix(ar, model, places, nb);
        crate::linalg::definite_solution_is_unique(ar, a, nb.len(), b, w, r->Ok_0);
    }
}

/// The cutoffs have the same proportions and models.
pub open spec fn same_cutoffs<'a, 'b, const D: usize, G>(
    a: Cutoffs<'a, D, G>,
    b: Cutoffs<'b, D, G>,
) -> bool {
    &&& a.values@ == b.values@
    &&& a.props@ == b.props@
    &&& a.models@ == b.models@
    &&& a.ordinary == b.ordinary
}

impl<'a, const D: usize, G: Fn([Double; D]) -> Double> Cutoffs<'a, D, G> {
    proof fn lemma_ccdf_is_unique<F: Fn(Op, Double, Double) -> Double>(
        &self,
        ar: Arithmetic<F>,
        places: Seq<[Double; D]>,
        nb: Seq<usize>,
        values: Seq<Double>,
        target: Seq<Double>,
        c: Seq<Double>,
        r: Result<Seq<Double>, GeostatError>,
    )
        requires
            self.ccdf_outcome(ar, places, nb, values, target, Ok(c)),
            self.ccdf_outcome(ar, places, nb, values, target, r),
        ensures
            r == Ok::<Seq<Double>, GeostatError>(c),
    {
        let ok: Result<Seq<Double>, GeostatError> = Ok(c);
        if self.models@.len() == 1 {
            let w1 = choose|w: Result<Seq<Double>, GeostatError>| #[trigger]
                self.weighs(ar, places, nb, target, 0, w) && match w {
                    Err(e) => ok == Err::<Seq<Double>, GeostatError>(e),
                    Ok(w) => ok == Ok::<Seq<Double>, GeostatError>(
                        self.estimates(ar, w, values),
                    ),
                };
            let w2 = choose|w: Result<Seq<Double>, GeostatError>| #[trigger]
                self.weighs(ar, places, nb, target, 0, w) && match w {
                    Err(e) => r == Err::<Seq<Double>, GeostatError>(e),
                    Ok(w) => r == Ok::<Seq<Double>, GeostatError>(
                        self.estimates(ar, w, values),
                    ),
                };
            ik_weights_are_unique(
                ar,
                self.model(0),
                places,
                nb,
                target,
                self.ordinary,
                w1->Ok_0,
                w2,
            );
        } else {
            assert forall|k: int| 0 <= k < c.len() implies self.solved(
                ar,
                places,
                nb,
                target,
                k,
            ) by {
                assert(self.one_from(ar, places, nb, values, target, k, c[k]));
            }
            match r {
                Ok(d) => {
                    assert forall|k: int| 0 <= k < c.len() implies c[k] == d[k] by {
                        assert(self.one_from(ar, places, nb, values, target, k, c[k]));
                        assert(self.one_from(ar, places, nb, values, target, k, d[k]));
                        let w1 = choose|w: Seq<Double>| #[trigger]
                            self.weighs(ar, places, nb, target, k, Ok(w)) && c[k] == ik_estimate(
                                ar,
                                w,
                                values,
                                self.values@[k],
                                self.props@[k],
                                self.ordinary,
                            );
                        let w2 = choose|w: Seq<Double>| #[trigger]
                            self.weighs(ar, places, nb, target, k, Ok(w)) && d[k] == ik_estimate(
                                ar,
                                w,
                                values,
                                self.values@[k],
                                self.props@[k],
                                self.ordinary,
                            );
                        ik_weights_are_unique(
                            ar,
                            self.model(k),
                            places,
                            nb,
                            target,
                            self.ordinary,
                            w1,
                            Ok(w2),
                        );
                    }
                    assert(c =~= d);
                },
                Err(e) => {
                    let k = choose|k: int|
                        0 <= k < self.values@.len() && #[trigger] self.fails_at(
                            ar,
                            places,
                            nb,
                            target,
                            k,
                            e,
                        );
                    assert(self.solved(ar, places, nb, target, k));
                    let w = choose|w: Seq<Double>| #[trigger]
                        self.weighs(ar, places, nb, target, k, Ok(w));
                    ik_weights_are_unique(
                        ar,
                        self.model(k),
                        places,
                        nb,
                        target,
                        self.ordinary,
                        w,
                        Err(e),
                    );
                },
            }
        }
    }

    /// A local distribution that is found is the only outcome that there can be.
    pub proof fn local_is_unique<F: Fn(Op, Double, Double) -> Double>(
        &self,
        ar: Arithmetic<F>,
        places: Seq<[Double; D]>,
        nb: Seq<usize>,
        values: Seq<Double>,
        target: Seq<Double>,
        c: Seq<Double>,
        r: Result<Seq<Double>, GeostatError>,
    )
        requires
            self.local_outcome(ar, places, nb, values, target, Ok(c)),
            self.local_outcome(ar, places, nb, values, target, r),
        ensures
            r == Ok::<Seq<Double>, GeostatError>(c),
    {
        if nb.len() > 0 {
            let ok: Result<Seq<Double>, GeostatError> = Ok(c);
            let v1 = choose|raw: Result<Seq<Double>, GeostatError>| #[trigger]
                self.ccdf_outcome(ar, places, nb, values, target, raw) && match raw {
                    Err(e) => ok == Err::<Seq<Double>, GeostatError>(e),
                    Ok(v) => ok == Ok::<Seq<Double>, GeostatError>(corrected(ar, v)),
                };
            let v2 = choose|raw: Result<Seq<Double>, GeostatError>| #[trigger]
                self.ccdf_outcome(ar, places, nb, values, target, raw) && match raw {
                    Err(e) => r == Err::<Seq<Double>, GeostatError>(e),
                    Ok(v) => r == Ok::<Seq<Double>, GeostatError>(corrected(ar, v)),
                };
            self.lemma_ccdf_is_unique(ar, places, nb, values, target, v1->Ok_0, v2);
        }
    }
}

impl<'a, const D: usize, G: Fn([Double; D]) -> Double> Cutoffs<'a, D, G> {
    /// A local distribution has one value for each cutoff.
    pub proof fn lemma_local_len<F: Fn(Op, Double, Double) -> Double>(
        &self,
        ar: Arithmetic<F>,
        places: Seq<[Double; D]>,
        nb: Seq<usize>,
        values: Seq<Double>,
        target: Seq<Double>,
        c: Seq<Double>,
    )
        requires
            self.props@.len() == self.values@.len(),
            self.local_outcome(ar, places, nb, values, target, Ok(c)),
        ensures
            c.len() == self.values@.len(),
    {
        if nb.len() > 0 {
            let ok: Result<Seq<Double>, GeostatError> = Ok(c);
            let raw = choose|raw: Result<Seq<Double>, GeostatError>| #[trigger]
                self.ccdf_outcome(ar, places, nb, values, target, raw) && match raw {
                    Err(e) => ok == Err::<Seq<Double>, GeostatError>(e),
                    Ok(v) => ok == Ok::<Seq<Double>, GeostatError>(corrected(ar, v)),
                };
            assert(raw->Ok_0.len() == self.values@.len());
        }
    }
}

/// The same cutoffs have the same local distributions.
pub proof fn lemma_same_local<'a, 'b, const D: usize, F: Fn(Op, Double, Double) -> Double, G: Fn([Double; D]) -> Double>(
    a: Cutoffs<'a, D, G>,
    b: Cutoffs<'b, D, G>,
    ar: Arithmetic<F>,
    places: Seq<[Double; D]>,
    nb: Seq<usize>,
    values: Seq<Double>,
    target: Seq<Double>,
    r: Result<Seq<Double>, GeostatError>,
)
    requires
        same_cutoffs(a, b),
        a.local_outcome(ar, places, nb, values, target, r),
    ensures
        b.local_outcome(ar, places, nb, values, target, r),
{
    if nb.len() > 0 {
        let raw = choose|raw: Result<Seq<Double>, GeostatError>| #[trigger]
            a.ccdf_outcome(ar, places, nb, values, target, raw) && match raw {
                Err(e) => r == Err::<Seq<Double>, GeostatError>(e),
                Ok(v) => r == Ok::<Seq<Double>, GeostatError>(corrected(ar, v)),
            };
        lemma_same_ccdf(a, b, ar, places, nb, values, target, raw);
        assert(b.ccdf_outcome(ar, places, nb, values, target, raw));
    }
}

proof fn lemma_same_ccdf<'a, 'b, const D: usize, F: Fn(Op, Double, Double) -> Double, G: Fn([Double; D]) -> Double>(
    a: Cutoffs<'a, D, G>,
    b: Cutoffs<'b, D, G>,
    ar: Arithmetic<F>,
    places: Seq<[Double; D]>,
    nb: Seq<usize>,
    values: Seq<Double>,
    target: Seq<Double>,
    r: Result<Seq<Double>, GeostatError>,
)
    requires
        same_cutoffs(a, b),
        a.ccdf_outcome(ar, places, nb, values, target, r),
    ensures
        b.ccdf_outcome(ar, places, nb, values, target, r),
{
    if a.models@.len() == 1 {
        let w = choose|w: Result<Seq<Double>, GeostatError>| #[trigger]
            a.weighs(ar, places, nb, target, 0, w) && match w {
                Err(e) => r == Err::<Seq<Double>, GeostatError>(e),
                Ok(w) => r == Ok::<Seq<Double>, GeostatError>(a.estimates(ar, w, values)),
            };
        assert(b.weighs(ar, places, nb, target, 0, w));
        if w is Ok {
            assert(a.estimates(ar, w->Ok_0, values) =~= b.estimates(ar, w->Ok_0, values));
        }
    } else {
        match r {
            Ok(c) => {
                assert forall|k: int| 0 <= k < c.len() implies b.one_from(
                    ar,
                    places,
                    nb,
                    values,
                    target,
                    k,
                    #[trigger] c[k],
                ) by {
                    assert(a.one_from(ar, places, nb, values, target, k, c[k]));
                    let w = choose|w: Seq<Double>| #[trigger]
                        a.weighs(ar, places, nb, target, k, Ok(w)) && c[k] == ik_estimate(
                            ar,
                            w,
                            values,
                            a.values@[k],
                            a.props@[k],
                            a.ordinary,
                        );
                    assert(b.weighs(ar, places, nb, target, k, Ok(w)));
                }
            },
            Err(e) => {
                let k = choose|k: int|
                    0 <= k < a.values@.len() && #[trigger] a.fails_at(
                        ar,
                        places,
                        nb,
                        target,
                        k,
                        e,
                    );
                assert forall|j: int| 0 <= j < k implies #[trigger] b.solved(
                    ar,
                    places,
                    nb,
                    target,
                    j,
                ) by {
                    assert(a.solved(ar, places, nb, target, j));
                    let w = choose|w: Seq<Double>| #[trigger]
                        a.weighs(ar, places, nb, target, j, Ok(w));
                    assert(b.weighs(ar, places, nb, target, j, Ok(w)));
                }
                assert(b.fails_at(ar, places, nb, target, k, e));
            },
        }
    }
}

/// One model that serves all cutoffs gives the distributions that one model each gives
/// where those are the same.
pub proof fn one_model_serves_all_cutoffs<'a, 'b, const D: usize, F: Fn(Op, Double, Double) -> Double, G: Fn([Double; D]) -> Double>(
    shared: Cutoffs<'a, D, G>,
    each: Cutoffs<'b, D, G>,
    ar: Arithmetic<F>,
    places: Seq<[Double; D]>,
    nb: Seq<usize>,
    values: Seq<Double>,
    target: Seq<Double>,
    r: Result<Seq<Double>, GeostatError>,
)
    requires
        shared.well_formed(),
        each.well_formed(),
        shared.models@.len() == 1,
        each.models@.len() == each.values@.len(),
        forall|k: int| 0 <= k < each.models@.len() ==> #[trigger] each.models@[k] == shared.models@[0],
        shared.values@ == each.values@,
        shared.props@ == each.props@,
        shared.ordinary == each.ordinary,
    ensures
        shared.local_outcome(ar, places, nb, values, target, r) <==> each.local_outcome(
            ar,
            places,
            nb,
            values,
            target,
            r,
        ),
{
    if nb.len() > 0 {
        assert forall|raw: Result<Seq<Double>, GeostatError>| #[trigger]
            shared.ccdf_outcome(ar, places, nb, values, target, raw) implies each.ccdf_outcome(
            ar,
            places,
            nb,
            values,
            target,
            raw,
        ) by {
            lemma_shared_is_each(shared, each, ar, places, nb, values, target, raw);
        }
        assert forall|raw: Result<Seq<Double>, GeostatError>| #[trigger]
            each.ccdf_outcome(ar, places, nb, values, target, raw) implies shared.ccdf_outcome(
            ar,
            places,
            nb,
            values,
            target,
            raw,
        ) by {
            lemma_each_is_shared(shared, each, ar, places, nb, values, target, raw);
        }
    }
}

proof fn lemma_shared_is_each<'a, 'b, const D: usize, F: Fn(Op, Double, Double) -> Double, G: Fn([Double; D]) -> Double>(
    shared: Cutoffs<'a, D, G>,
    each: Cutoffs<'b, D, G>,
    ar: Arithmetic<F>,
    places: Seq<[Double; D]>,
    nb: Seq<usize>,
    values: Seq<Double>,
    target: Seq<Double>,
    raw: Result<Seq<Double>, GeostatError>,
)
    requires
        shared.well_formed(),
        shared.models@.len() == 1,
        each.models@.len() == each.values@.len(),
        forall|k: int| 0 <= k < each.models@.len() ==> #[trigger] each.models@[k] == shared.models@[0],
        shared.values@ == each.values@,
        shared.props@ == each.props@,
        shared.ordinary == each.ordinary,
        shared.ccdf_outcome(ar, places, nb, values, target, raw),
    ensures
        each.ccdf_outcome(ar, places, nb, values, target, raw),
{
    let w = choose|w: Result<Seq<Double>, GeostatError>| #[trigger]
        shared.weighs(ar, places, nb, target, 0, w) && match w {
            Err(e) => raw == Err::<Seq<Double>, GeostatError>(e),
            Ok(w) => raw == Ok::<Seq<Double>, GeostatError>(shared.estimates(ar, w, values)),
        };
    assert forall|k: int| 0 <= k < each.values@.len() implies #[trigger] each.weighs(
        ar,
        places,
        nb,
        target,
        k,
        w,
    ) by {
        assert(each.model(k) == shared.model(0));
    }
    assert(each.weighs(ar, places, nb, target, 0, w));
    if w is Ok {
        assert(shared.estimates(ar, w->Ok_0, values) =~= each.estimates(ar, w->Ok_0, values));
        if each.models@.len() != 1 {
            let c = raw->Ok_0;
            assert forall|k: int| 0 <= k < c.len() implies each.one_from(
                ar,
                places,
                nb,
                values,
                target,
                k,
                #[trigger] c[k],
            ) by {
                assert(each.weighs(ar, places, nb, target, k, Ok(w->Ok_0)));
            }
        }
    } else if each.models@.len() != 1 {
        assert(each.fails_at(ar, places, nb, target, 0, w->Err_0));
    }
}

proof fn lemma_each_is_shared<'a, 'b, const D: usize, F: Fn(Op, Double, Double) -> Double, G: Fn([Double; D]) -> Double>(
    shared: Cutoffs<'a, D, G>,
    each: Cutoffs<'b, D, G>,
    ar: Arithmetic<F>,
    places: Seq<[Double; D]>,
    nb: Seq<usize>,
    values: Seq<Double>,
    target: Seq<Double>,
    raw: Result<Seq<Double>, GeostatError>,
)
    requires
        shared.well_formed(),
        shared.models@.len() == 1,
        each.models@.len() == each.values@.len(),
        forall|k: int| 0 <= k < each.models@.len() ==> #[trigger] each.models@[k] == shared.models@[0],
        shared.values@ == each.values@,
        shared.props@ == each.props@,
        shared.ordinary == each.ordinary,
        each.ccdf_outcome(ar, places, nb, values, target, raw),
    ensures
        shared.ccdf_outcome(ar, places, nb, values, target, raw),
{
    if each.models@.len() == 1 {
        let w = choose|w: Result<Seq<Double>, GeostatError>| #[trigger]
            each.weighs(ar, places, nb, target, 0, w) && match w {
                Err(e) => raw == Err::<Seq<Double>, GeostatError>(e),
                Ok(w) => raw == Ok::<Seq<Double>, GeostatError>(each.estimates(ar, w, values)),
            };
        assert(each.model(0) == shared.model(0));
        assert(shared.weighs(ar, places, nb, target, 0, w));
        if w is Ok {
            assert(shared.estimates(ar, w->Ok_0, values) =~= each.estimates(ar, w->Ok_0, values));
        }
    } else {
        match raw {
            Ok(c) => {
                assert(each.one_from(ar, places, nb, values, target, 0, c[0]));
                let w = choose|w: Seq<Double>| #[trigger]
                    each.weighs(ar, places, nb, target, 0, Ok(w)) && c[0] == ik_estimate(
                        ar,
                        w,
                        values,
                        each.values@[0],
                        each.props@[0],
                        each.ordinary,
                    );
                let one = shared.model(0);
                assert(each.model(0) == one);
                assert(shared.weighs(ar, places, nb, target, 0, Ok(w)));
                assert forall|k: int| 0 <= k < c.len() implies c[k] == shared.estimates(
                    ar,
                    w,
                    values,
                )[k] by {
                    assert(each.one_from(ar, places, nb, values, target, k, c[k]));
                    let v = choose|v: Seq<Double>| #[trigger]
                        each.weighs(ar, places, nb, target, k, Ok(v)) && c[k] == ik_estimate(
                            ar,
                            v,
                            values,
                            each.values@[k],
                            each.props@[k],
                            each.ordinary,
                        );
                    assert(each.model(k) == one);
                    ik_weights_are_unique(ar, one, places, nb, target, each.ordinary, w, Ok(v));
                }
                assert(c =~= shared.estimates(ar, w, values));
            },
            Err(e) => {
                let k = choose|k: int|
                    0 <= k < each.values@.len() && #[trigger] each.fails_at(
                        ar,
                        places,
                        nb,
                        target,
                        k,
                        e,
                    );
                assert(each.model(k) == shared.model(0));
                assert(shared.weighs(ar, places, nb, target, 0, Err(e)));
            },
        }
    }
}

} // verus!

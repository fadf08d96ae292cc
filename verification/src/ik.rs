//! Indicator kriging: local distributions at a set of cutoffs.
//!
//! At each target, indicator kriging estimates the distribution at the cutoffs;
//! order-relation corrections are applied, and a mean and a conditional
//! variance are derived from the corrected distribution.

use vstd::prelude::*;

use crate::arith::{Arithmetic, Op};
use crate::ccdf::{
    ccdf_moments, climb, corrected, cutoffs_ok, is_rising, ladder_outcome, models_text, moments_of,
    order_corrections, rises, wrong_models, Classes, Ladder,
};
use crate::collocated::{check_correlation, is_correlation};
use crate::covariance::Covariance;
use crate::data::PointSet;
use crate::double::Double;
use crate::error::{
    invalid, invalid_double, invalid_of, invalid_parameter, mismatch, mismatched, GeostatError,
};
use crate::indicator::{
    all_rows_have, near_ok, one_model_serves_all_cutoffs, rows_have, Cutoffs,
    MarkovBayesCalibration,
};
use crate::matrix::holdable;
use crate::model::{check_radius, radius_ok};
use crate::neighborhood::{conditions, conditions_are_unique, settled, Lookup};
use crate::parallel::par_try_map;
use crate::simple::as_list;
use crate::sis::all_total;
use crate::tails::TailModel;
use crate::text::{concat3, counts_text, decimal, digits};

verus! {

/// Configuration for indicator kriging.
pub struct IkConfig<const D: usize, G> {
    /// Indicator cutoffs, strictly ascending, inside the data value range.
    pub cutoffs: Vec<Double>,
    /// Indicator variogram models: one per cutoff, or a single one shared by
    /// all cutoffs.
    pub models: Vec<Covariance<D, G>>,
    /// Ordinary indicator kriging (weights sum to one, no assumed known mean)
    /// instead of simple indicator kriging.
    pub ordinary: bool,
    /// Maximum nearest conditioning points per target (all when unset).
    pub max_neighbors: Option<usize>,
    /// Optional search radius.
    pub search_radius: Option<Double>,
    /// Lower tail bound (default: data minimum).
    pub tail_min: Option<Double>,
    /// Upper tail bound (default: data maximum).
    pub tail_max: Option<Double>,
    /// Lower-tail interpolation between `tail_min` and the first cutoff.
    pub lower_tail: TailModel,
    /// Upper-tail interpolation between the last cutoff and `tail_max`.
    pub upper_tail: TailModel,
}

/// Local distribution at one target.
#[derive(Debug)]
pub struct CcdfEstimate {
    /// Order-corrected values of the distribution at the cutoffs.
    pub ccdf: Vec<Double>,
    /// Mean of the local distribution.
    pub e_type: Double,
    /// Conditional variance of the local distribution.
    pub cond_var: Double,
}

/// The search is limited by at least one neighbor and a positive radius.
pub open spec fn search_ok(max_neighbors: Option<usize>, radius: Option<Double>) -> bool {
    max_neighbors != Some(0usize) && radius_ok(radius)
}

/// Why the search limits are refused.
pub open spec fn search_refused(
    max_neighbors: Option<usize>,
    radius: Option<Double>,
    e: GeostatError,
) -> bool {
    if max_neighbors == Some(0usize) {
        invalid(e, "max_neighbors must be at least 1"@)
    } else {
        invalid_of(e, "search radius must be positive, got {}"@, seq![radius->0])
    }
}

fn check_search(max_neighbors: Option<usize>, radius: Option<Double>) -> (r: Result<
    (),
    GeostatError,
>)
    ensures
        r is Ok <==> search_ok(max_neighbors, radius),
        r matches Err(e) ==> search_refused(max_neighbors, radius, e),
{
    if let Some(k) = max_neighbors {
        if k == 0 {
            return Err(invalid_parameter("max_neighbors must be at least 1"));
        }
    }
    check_radius(radius)
}

/// Cutoffs and models are in order.
pub open spec fn cutoffs_refused(cutoffs: Seq<Double>, n_models: nat, e: GeostatError) -> bool {
    if !rises(cutoffs) {
        invalid(e, "cutoffs must be strictly ascending"@)
    } else {
        mismatch(e, models_text(n_models, cutoffs.len()))
    }
}

fn check_cutoffs(cutoffs: &Vec<Double>, n_models: usize) -> (r: Result<(), GeostatError>)
    requires
        cutoffs.len() > 0,
    ensures
        r is Ok <==> cutoffs_ok(cutoffs@, n_models as nat),
        r matches Err(e) ==> cutoffs_refused(cutoffs@, n_models as nat, e),
{
    let nc: usize = cutoffs.len();
    if !is_rising(cutoffs) {
        return Err(invalid_parameter("cutoffs must be strictly ascending"));
    }
    if n_models != nc && n_models != 1 {
        return Err(wrong_models(n_models, nc));
    }
    Ok(())
}

impl<const D: usize, G: Fn([Double; D]) -> Double> IkConfig<D, G> {
    /// The configuration is in order.
    pub open spec fn proper(&self) -> bool {
        &&& cutoffs_ok(self.cutoffs@, self.models@.len())
        &&& search_ok(self.max_neighbors, self.search_radius)
    }

    /// Why it is not: the first check that fails.
    pub open spec fn refused(&self, e: GeostatError) -> bool {
        if self.cutoffs@.len() == 0 {
            invalid(e, "at least one cutoff required"@)
        } else if !cutoffs_ok(self.cutoffs@, self.models@.len()) {
            cutoffs_refused(self.cutoffs@, self.models@.len(), e)
        } else {
            search_refused(self.max_neighbors, self.search_radius, e)
        }
    }

    /// The cutoffs with their proportions and models.
    pub open spec fn cutoffs_with<'a>(&'a self, ladder: &'a Ladder) -> Cutoffs<'a, D, G> {
        Cutoffs {
            values: &self.cutoffs,
            props: &ladder.props,
            models: &self.models,
            ordinary: self.ordinary,
        }
    }

    /// The classes of the distribution.
    pub open spec fn classes_with<'a>(&'a self, ladder: &'a Ladder) -> Classes<'a> {
        Classes {
            cutoffs: &self.cutoffs,
            tail_min: ladder.tail_min,
            tail_max: ladder.tail_max,
            lower_tail: self.lower_tail,
            upper_tail: self.upper_tail,
        }
    }

    /// The ladder of the data.
    pub open spec fn ladder_for<F: Fn(Op, Double, Double) -> Double>(
        &self,
        ar: Arithmetic<F>,
        values: Seq<Double>,
        r: Result<Ladder, GeostatError>,
    ) -> bool {
        ladder_outcome(
            ar,
            values,
            None,
            self.cutoffs@,
            self.tail_min,
            self.tail_max,
            self.lower_tail,
            self.upper_tail,
            r,
        )
    }

    /// `nb` are the conditioning points of a target.
    pub open spec fn conditions<F: Fn(Op, Double, Double) -> Double>(
        &self,
        ar: Arithmetic<F>,
        places: Seq<[Double; D]>,
        target: [Double; D],
        nb: Seq<usize>,
    ) -> bool {
        conditions(ar, places, self.max_neighbors, self.search_radius, target, nb)
    }

    /// The estimate that a distribution gives.
    pub open spec fn summed_up<F: Fn(Op, Double, Double) -> Double>(
        &self,
        ar: Arithmetic<F>,
        ladder: &Ladder,
        ccdf: Result<Seq<Double>, GeostatError>,
        r: Result<CcdfEstimate, GeostatError>,
    ) -> bool {
        match ccdf {
            Err(e) => r == Err::<CcdfEstimate, GeostatError>(e),
            Ok(c) => r matches Ok(est) && est.ccdf@ == c && (est.e_type, est.cond_var)
                == moments_of(ar, c, self.classes_with(ladder)),
        }
    }

    /// What the estimate from these conditioning points is.
    pub open spec fn estimated<F: Fn(Op, Double, Double) -> Double>(
        &self,
        ar: Arithmetic<F>,
        data: &PointSet<D>,
        ladder: &Ladder,
        target: [Double; D],
        nb: Seq<usize>,
        r: Result<CcdfEstimate, GeostatError>,
    ) -> bool {
        exists|ccdf: Result<Seq<Double>, GeostatError>| #[trigger]
            self.cutoffs_with(ladder).local_outcome(
                ar,
                data.places(),
                nb,
                values_at(data.attributes(), nb),
                target@,
                ccdf,
            ) && self.summed_up(ar, ladder, ccdf, r)
    }

    /// What the estimate at a target is.
    pub open spec fn kriged<F: Fn(Op, Double, Double) -> Double>(
        &self,
        ar: Arithmetic<F>,
        data: &PointSet<D>,
        ladder: &Ladder,
        target: [Double; D],
        r: Result<CcdfEstimate, GeostatError>,
    ) -> bool {
        exists|nb: Seq<usize>| #[trigger]
            self.conditions(ar, data.places(), target, nb) && self.estimated(
                ar,
                data,
                ladder,
                target,
                nb,
                r,
            )
    }

    /// What indicator kriging gives.
    pub open spec fn outcome<F: Fn(Op, Double, Double) -> Double>(
        &self,
        ar: Arithmetic<F>,
        data: &PointSet<D>,
        targets: Seq<[Double; D]>,
        r: Result<Vec<CcdfEstimate>, GeostatError>,
    ) -> bool {
        if !self.proper() {
            r matches Err(e) && self.refused(e)
        } else {
            exists|ladder: Result<Ladder, GeostatError>| #[trigger]
                self.ladder_for(ar, data.attributes(), ladder) && match ladder {
                    Err(e) => r == Err::<Vec<CcdfEstimate>, GeostatError>(e),
                    Ok(l) => match r {
                        Ok(v) => v@.len() == targets.len() && forall|t: int|
                            0 <= t < v@.len() ==> self.kriged(
                                ar,
                                data,
                                &l,
                                targets[t],
                                Ok(#[trigger] v@[t]),
                            ),
                        Err(e) => exists|t: int|
                            0 <= t < targets.len() && self.kriged(
                                ar,
                                data,
                                &l,
                                #[trigger] targets[t],
                                Err(e),
                            ),
                    },
                }
        }
    }
}

/// Values at positions.
pub open spec fn values_at(values: Seq<Double>, nb: Seq<usize>) -> Seq<Double> {
    Seq::new(nb.len(), |i: int| values[nb[i] as int])
}

fn pick(values: &Vec<Double>, nb: &Vec<usize>) -> (out: Vec<Double>)
    requires
        forall|i: int| 0 <= i < nb.len() ==> (#[trigger] nb@[i]) < values.len(),
    ensures
        out@ == values_at(values@, nb@),
{
    let mut out: Vec<Double> = Vec::new();
    for i in 0..nb.len()
        invariant
            forall|j: int| 0 <= j < nb.len() ==> (#[trigger] nb@[j]) < values.len(),
            out@ =~= values_at(values@, nb@).take(i as int),
    {
        out.push(values[nb[i]]);
    }
    assert(out@ =~= values_at(values@, nb@));
    out
}

/// The data can be used, and the largest system fits in memory.
pub open spec fn data_ok<const D: usize>(data: &PointSet<D>) -> bool {
    &&& 0 < D
    &&& data.well_formed()
    &&& data.places().len() < u32::MAX
    &&& holdable(data.places().len() + 1, data.places().len() + 1)
}

/// What one target is estimated from.
pub struct Rig<'a, const D: usize, G> {
    /// The data.
    pub data: &'a PointSet<D>,
    /// The configuration.
    pub cfg: &'a IkConfig<D, G>,
    /// Proportions and tail bounds.
    pub ladder: &'a Ladder,
    /// Looks up conditioning points.
    pub lookup: &'a Lookup<D>,
}

impl<'a, const D: usize, G: Fn([Double; D]) -> Double> Rig<'a, D, G> {
    /// The parts fit together.
    pub open spec fn well_formed(&self) -> bool {
        &&& data_ok(self.data)
        &&& self.cfg.cutoffs_with(self.ladder).well_formed()
        &&& self.cfg.cutoffs@.len() < usize::MAX
        &&& !(self.cfg.lower_tail is Hyperbolic)
        &&& self.lookup.well_formed()
        &&& self.lookup.places() == self.data.places()
        &&& self.lookup.most() == self.cfg.max_neighbors
        &&& self.lookup.reach() == self.cfg.search_radius
    }

    fn sum_up<F: Fn(Op, Double, Double) -> Double>(
        &self,
        ccdf: Vec<Double>,
        ar: &Arithmetic<F>,
    ) -> (est: CcdfEstimate)
        requires
            self.well_formed(),
            ar.total(),
            ccdf.len() == self.cfg.cutoffs@.len(),
        ensures
            est.ccdf@ == ccdf@,
            (est.e_type, est.cond_var) == moments_of(
                *ar,
                ccdf@,
                self.cfg.classes_with(self.ladder),
            ),
    {
        let classes: Classes = Classes {
            cutoffs: &self.cfg.cutoffs,
            tail_min: self.ladder.tail_min,
            tail_max: self.ladder.tail_max,
            lower_tail: self.cfg.lower_tail,
            upper_tail: self.cfg.upper_tail,
        };
        let (e_type, cond_var): (Double, Double) = ccdf_moments(&ccdf, &classes, ar);
        CcdfEstimate { ccdf, e_type, cond_var }
    }

    fn estimate<F: Fn(Op, Double, Double) -> Double>(
        &self,
        target: [Double; D],
        ar: &Arithmetic<F>,
    ) -> (r: Result<
        CcdfEstimate,
        GeostatError,
    >)
        requires
            self.well_formed(),
            ar.ieee(),
        ensures
            self.cfg.kriged(*ar, self.data, self.ladder, target, r),
    {
        let nb: Vec<usize> = self.lookup.around(target, ar);
        proof {
            crate::kriging::lemma_holdable(nb@.len() + 1, self.data.places().len() + 1);
            assert(near_ok(nb@, self.data.places().len()));
            assert(self.cfg.conditions(*ar, self.data.places(), target, nb@));
        }
        let values: Vec<Double> = pick(self.data.values(), &nb);
        let cutoffs: Cutoffs<D, G> = Cutoffs {
            values: &self.cfg.cutoffs,
            props: &self.ladder.props,
            models: &self.cfg.models,
            ordinary: self.cfg.ordinary,
        };
        assert(cutoffs == self.cfg.cutoffs_with(self.ladder));
        let ccdf: Result<Vec<Double>, GeostatError> = cutoffs.local_ccdf(
            self.data.coords(),
            &nb,
            &values,
            &target,
            ar,
        );
        let ghost list = as_list(ccdf);
        assert(self.cfg.cutoffs_with(self.ladder).local_outcome(
            *ar,
            self.data.places(),
            nb@,
            values@,
            target@,
            list,
        ));
        let r: Result<CcdfEstimate, GeostatError> = match ccdf {
            Err(e) => Err(e),
            Ok(c) => Ok(self.sum_up(c, ar)),
        };
        assert(self.cfg.summed_up(*ar, self.ladder, list, r));
        assert(self.cfg.estimated(*ar, self.data, self.ladder, target, nb@, r));
        r
    }

    fn estimate_soft<F: Fn(Op, Double, Double) -> Double>(
        &self,
        target: [Double; D],
        soft: &Vec<Double>,
        calib: &Vec<MarkovBayesCalibration>,
        ar: &Arithmetic<F>,
    ) -> (r: Result<CcdfEstimate, GeostatError>)
        requires
            self.well_formed(),
            ar.ieee(),
            soft.len() == self.cfg.cutoffs@.len(),
            calib.len() == self.cfg.cutoffs@.len(),
        ensures
            self.cfg.soft_kriged(*ar, self.data, self.ladder, target, soft@, calib@, r),
    {
        let nb: Vec<usize> = self.lookup.around(target, ar);
        proof {
            crate::kriging::lemma_holdable(nb@.len() + 1, self.data.places().len() + 1);
            assert(near_ok(nb@, self.data.places().len()));
            assert(self.cfg.conditions(*ar, self.data.places(), target, nb@));
        }
        let values: Vec<Double> = pick(self.data.values(), &nb);
        let cutoffs: Cutoffs<D, G> = Cutoffs {
            values: &self.cfg.cutoffs,
            props: &self.ladder.props,
            models: &self.cfg.models,
            ordinary: self.cfg.ordinary,
        };
        assert(cutoffs == self.cfg.cutoffs_with(self.ladder));
        let ccdf: Result<Vec<Double>, GeostatError> = cutoffs.indicator_ccdf_soft(
            self.data.coords(),
            &nb,
            &values,
            &target,
            soft,
            calib,
            ar,
        );
        let ghost raw = as_list(ccdf);
        assert(self.cfg.cutoffs_with(self.ladder).soft_outcome(
            *ar,
            self.data.places(),
            nb@,
            values@,
            target@,
            soft@,
            calib@,
            raw,
        ));
        let r: Result<CcdfEstimate, GeostatError> = match ccdf {
            Err(e) => Err(e),
            Ok(mut c) => {
                order_corrections(&mut c, ar);
                Ok(self.sum_up(c, ar))
            },
        };
        assert(self.cfg.summed_up(*ar, self.ladder, all_corrected(*ar, raw), r));
        assert(self.cfg.soft_estimated(
            *ar,
            self.data,
            self.ladder,
            target,
            soft@,
            calib@,
            nb@,
            r,
        ));
        r
    }
}

/// The distribution, with its order relations corrected.
pub open spec fn all_corrected<F: Fn(Op, Double, Double) -> Double>(
    ar: Arithmetic<F>,
    raw: Result<Seq<Double>, GeostatError>,
) -> Result<
    Seq<Double>,
    GeostatError,
> {
    match raw {
        Err(e) => Err(e),
        Ok(v) => Ok(corrected(ar, v)),
    }
}

/// Indicator kriging at arbitrary targets. Returns one estimate per target, in
/// order.
pub fn indicator_kriging<
    const D: usize,
    F: Fn(Op, Double, Double) -> Double + Sync,
    G: Fn([Double; D]) -> Double + Sync,
>(
    data: &PointSet<D>,
    targets: &Vec<[Double; D]>,
    cfg: &IkConfig<D, G>,
    ar: &Arithmetic<F>,
) -> (r: Result<Vec<CcdfEstimate>, GeostatError>)
    requires
        data_ok(data),
        ar.ieee(),
        all_total(cfg.models@),
        cfg.cutoffs@.len() < usize::MAX,
    ensures
        cfg.outcome(*ar, data, targets@, r),
{
    if cfg.cutoffs.len() == 0 {
        return Err(invalid_parameter("at least one cutoff required"));
    }
    match check_cutoffs(&cfg.cutoffs, cfg.models.len()) {
        Err(e) => {
            return Err(e);
        },
        Ok(_) => {},
    }
    match check_search(cfg.max_neighbors, cfg.search_radius) {
        Err(e) => {
            return Err(e);
        },
        Ok(_) => {},
    }
    let climbed: Result<Ladder, GeostatError> = cfg.climb_with(data, ar);
    assert(cfg.ladder_for(*ar, data.attributes(), climbed));
    let ladder: Ladder = match climbed {
        Err(e) => {
            return Err(e);
        },
        Ok(l) => l,
    };
    let lookup: Lookup<D> = Lookup::new(data.coords(), cfg.max_neighbors, cfg.search_radius);
    let rig: Rig<D, G> = Rig { data, cfg, ladder: &ladder, lookup: &lookup };
    let rr: &Rig<D, G> = &rig;
    let one = |t: usize| -> (out: Result<CcdfEstimate, GeostatError>)
        requires
            t < targets.len(),
            rr.well_formed(),
            ar.ieee(),
        ensures
            rr.cfg.kriged(*ar, rr.data, rr.ladder, targets@[t as int], out),
        { rr.estimate(targets[t], ar) };
    let r: Result<Vec<CcdfEstimate>, GeostatError> = par_try_map(targets.len(), one);
    proof {
        if r is Err {
            let e = r->Err_0;
            let i = choose|i: usize|
                i < targets.len() && #[trigger] call_ensures(one, (i,), Err(e));
            assert(cfg.kriged(*ar, data, &ladder, targets@[i as int], Err(e)));
        }
    }
    r
}

impl<const D: usize, G: Fn([Double; D]) -> Double> IkConfig<D, G> {
    fn climb_with<F: Fn(Op, Double, Double) -> Double>(
        &self,
        data: &PointSet<D>,
        ar: &Arithmetic<F>,
    ) -> (r: Result<
        Ladder,
        GeostatError,
    >)
        requires
            data_ok(data),
            ar.total(),
            self.cutoffs@.len() > 0,
        ensures
            self.ladder_for(*ar, data.attributes(), r),
            r matches Ok(l) ==> l.props@.len() == self.cutoffs@.len() && !(
            self.lower_tail is Hyperbolic),
    {
        let values: &Vec<Double> = data.values();
        proof {
            assert forall|i: int| 0 <= i < values.len() implies !(#[trigger] values@[i]).nan() by {
                assert(values@[i].finite());
            }
        }
        let none: Option<Vec<Double>> = None;
        climb(
            values,
            &none,
            &self.cutoffs,
            self.tail_min,
            self.tail_max,
            self.lower_tail,
            self.upper_tail,
            ar,
        )
    }

    /// What the estimate from these conditioning points and soft data is.
    pub open spec fn soft_estimated<F: Fn(Op, Double, Double) -> Double>(
        &self,
        ar: Arithmetic<F>,
        data: &PointSet<D>,
        ladder: &Ladder,
        target: [Double; D],
        soft: Seq<Double>,
        calib: Seq<MarkovBayesCalibration>,
        nb: Seq<usize>,
        r: Result<CcdfEstimate, GeostatError>,
    ) -> bool {
        exists|raw: Result<Seq<Double>, GeostatError>| #[trigger]
            self.cutoffs_with(ladder).soft_outcome(
                ar,
                data.places(),
                nb,
                values_at(data.attributes(), nb),
                target@,
                soft,
                calib,
                raw,
            ) && self.summed_up(ar, ladder, all_corrected(ar, raw), r)
    }

    /// What the estimate at a target with soft data is.
    pub open spec fn soft_kriged<F: Fn(Op, Double, Double) -> Double>(
        &self,
        ar: Arithmetic<F>,
        data: &PointSet<D>,
        ladder: &Ladder,
        target: [Double; D],
        soft: Seq<Double>,
        calib: Seq<MarkovBayesCalibration>,
        r: Result<CcdfEstimate, GeostatError>,
    ) -> bool {
        exists|nb: Seq<usize>| #[trigger]
            self.conditions(ar, data.places(), target, nb) && self.soft_estimated(
                ar,
                data,
                ladder,
                target,
                soft,
                calib,
                nb,
                r,
            )
    }

    /// The configuration and the soft data are in order.
    pub open spec fn soft_proper(
        &self,
        n_targets: nat,
        soft: Seq<Vec<Double>>,
        calib: Seq<MarkovBayesCalibration>,
    ) -> bool {
        &&& !self.ordinary
        &&& cutoffs_ok(self.cutoffs@, self.models@.len())
        &&& soft.len() == n_targets
        &&& rows_have(soft, self.cutoffs@.len())
        &&& calib.len() == self.cutoffs@.len()
        &&& calibrations_ok(calib)
        &&& search_ok(self.max_neighbors, self.search_radius)
    }

    /// Why they are not: the first check that fails.
    pub open spec fn soft_refused(
        &self,
        n_targets: nat,
        soft: Seq<Vec<Double>>,
        calib: Seq<MarkovBayesCalibration>,
        e: GeostatError,
    ) -> bool {
        let nc = self.cutoffs@.len();
        if nc == 0 {
            invalid(e, "at least one cutoff required"@)
        } else if self.ordinary {
            invalid(
                e,
                "Markov-Bayes soft data needs simple indicator kriging (IkConfig::ordinary must be false)"@,
            )
        } else if !cutoffs_ok(self.cutoffs@, self.models@.len()) {
            cutoffs_refused(self.cutoffs@, self.models@.len(), e)
        } else if soft.len() != n_targets {
            mismatch(
                e,
                digits(soft.len()) + " soft rows for "@ + digits(n_targets) + " targets"@,
            )
        } else if !rows_have(soft, nc) {
            mismatch(
                e,
                "every soft row must have "@ + digits(nc) + " entries (one per cutoff)"@,
            )
        } else if calib.len() != nc {
            mismatch(
                e,
                digits(calib.len()) + " calibrations for "@ + digits(nc) + " cutoffs"@,
            )
        } else if !calibrations_ok(calib) {
            calibrations_refused(calib, e)
        } else {
            search_refused(self.max_neighbors, self.search_radius, e)
        }
    }

    /// What indicator kriging with soft data gives.
    pub open spec fn soft_outcome<F: Fn(Op, Double, Double) -> Double>(
        &self,
        ar: Arithmetic<F>,
        data: &PointSet<D>,
        targets: Seq<[Double; D]>,
        soft: Seq<Vec<Double>>,
        calib: Seq<MarkovBayesCalibration>,
        r: Result<Vec<CcdfEstimate>, GeostatError>,
    ) -> bool {
        if !self.soft_proper(targets.len(), soft, calib) {
            r matches Err(e) && self.soft_refused(targets.len(), soft, calib, e)
        } else {
            exists|ladder: Result<Ladder, GeostatError>| #[trigger]
                self.ladder_for(ar, data.attributes(), ladder) && match ladder {
                    Err(e) => r == Err::<Vec<CcdfEstimate>, GeostatError>(e),
                    Ok(l) => match r {
                        Ok(v) => v@.len() == targets.len() && forall|t: int|
                            0 <= t < v@.len() ==> self.soft_kriged(
                                ar,
                                data,
                                &l,
                                targets[t],
                                soft[t]@,
                                calib,
                                Ok(#[trigger] v@[t]),
                            ),
                        Err(e) => exists|t: int|
                            0 <= t < targets.len() && self.soft_kriged(
                                ar,
                                data,
                                &l,
                                #[trigger] targets[t],
                                soft[t]@,
                                calib,
                                Err(e),
                            ),
                    },
                }
        }
    }
}

/// A calibration can be used.
pub open spec fn calibration_usable(c: MarkovBayesCalibration) -> bool {
    is_correlation(c.rho) && c.sigma_soft.is_positive() && c.sigma_soft.finite()
}

/// All calibrations can be used.
pub open spec fn calibrations_ok(calib: Seq<MarkovBayesCalibration>) -> bool {
    forall|k: int| 0 <= k < calib.len() ==> calibration_usable(#[trigger] calib[k])
}

/// Why not: the first that cannot.
pub open spec fn calibrations_refused(calib: Seq<MarkovBayesCalibration>, e: GeostatError) -> bool {
    exists|k: int|
        0 <= k < calib.len() && !calibration_usable(#[trigger] calib[k]) && calibrations_ok(
            calib.take(k),
        ) && if !is_correlation(calib[k].rho) {
            invalid_of(
                e,
                "Markov-Bayes rho must be finite and in [-1, 1], got {}"@,
                seq![calib[k].rho],
            )
        } else {
            invalid(e, "Markov-Bayes sigma_soft must be finite and > 0"@)
        }
}

fn check_calibrations(calib: &Vec<MarkovBayesCalibration>) -> (r: Result<(), GeostatError>)
    ensures
        r is Ok <==> calibrations_ok(calib@),
        r matches Err(e) ==> calibrations_refused(calib@, e),
{
    for k in 0..calib.len()
        invariant
            forall|j: int| 0 <= j < k ==> calibration_usable(#[trigger] calib@[j]),
    {
        let c: MarkovBayesCalibration = calib[k];
        if !check_correlation(c.rho) {
            assert(!calibration_usable(calib@[k as int]));
            assert(calibrations_ok(calib@.take(k as int)));
            return Err(
                invalid_double("Markov-Bayes rho must be finite and in [-1, 1], got {}", c.rho),
            );
        }
        if !c.sigma_soft.is_positive() || !c.sigma_soft.is_finite() {
            assert(!calibration_usable(calib@[k as int]));
            assert(calibrations_ok(calib@.take(k as int)));
            return Err(invalid_parameter("Markov-Bayes sigma_soft must be finite and > 0"));
        }
    }
    Ok(())
}

/// Indicator kriging with soft data at every target: `soft[t][k]` is the soft
/// probability for target `t` and cutoff `k`, `calib[k]` its calibration.
/// Simple indicator kriging only. With no hard neighbors at a target this is a
/// regression on the collocated soft datum alone.
pub fn indicator_kriging_soft<
    const D: usize,
    F: Fn(Op, Double, Double) -> Double + Sync,
    G: Fn([Double; D]) -> Double + Sync,
>(
    data: &PointSet<D>,
    targets: &Vec<[Double; D]>,
    soft: &Vec<Vec<Double>>,
    calib: &Vec<MarkovBayesCalibration>,
    cfg: &IkConfig<D, G>,
    ar: &Arithmetic<F>,
) -> (r: Result<Vec<CcdfEstimate>, GeostatError>)
    requires
        data_ok(data),
        ar.ieee(),
        all_total(cfg.models@),
        cfg.cutoffs@.len() < usize::MAX,
    ensures
        cfg.soft_outcome(*ar, data, targets@, soft@, calib@, r),
{
    let nc: usize = cfg.cutoffs.len();
    if nc == 0 {
        return Err(invalid_parameter("at least one cutoff required"));
    }
    if cfg.ordinary {
        return Err(
            invalid_parameter(
                "Markov-Bayes soft data needs simple indicator kriging (IkConfig::ordinary must be false)",
            ),
        );
    }
    match check_cutoffs(&cfg.cutoffs, cfg.models.len()) {
        Err(e) => {
            return Err(e);
        },
        Ok(_) => {},
    }
    if soft.len() != targets.len() {
        return Err(
            mismatched(counts_text(soft.len(), " soft rows for ", targets.len(), " targets")),
        );
    }
    if !all_rows_have(soft, nc) {
        return Err(
            mismatched(
                concat3(
                    "every soft row must have ",
                    decimal(nc).as_str(),
                    " entries (one per cutoff)",
                ),
            ),
        );
    }
    if calib.len() != nc {
        return Err(mismatched(counts_text(calib.len(), " calibrations for ", nc, " cutoffs")));
    }
    match check_calibrations(calib) {
        Err(e) => {
            return Err(e);
        },
        Ok(_) => {},
    }
    match check_search(cfg.max_neighbors, cfg.search_radius) {
        Err(e) => {
            return Err(e);
        },
        Ok(_) => {},
    }
    let climbed: Result<Ladder, GeostatError> = cfg.climb_with(data, ar);
    assert(cfg.ladder_for(*ar, data.attributes(), climbed));
    let ladder: Ladder = match climbed {
        Err(e) => {
            return Err(e);
        },
        Ok(l) => l,
    };
    let lookup: Lookup<D> = Lookup::new(data.coords(), cfg.max_neighbors, cfg.search_radius);
    let rig: Rig<D, G> = Rig { data, cfg, ladder: &ladder, lookup: &lookup };
    let rr: &Rig<D, G> = &rig;
    let one = |t: usize| -> (out: Result<CcdfEstimate, GeostatError>)
        requires
            t < targets.len(),
            targets.len() == soft.len(),
            rows_have(soft@, nc as nat),
            calib.len() == nc,
            nc == rr.cfg.cutoffs@.len(),
            rr.well_formed(),
            ar.ieee(),
        ensures
            rr.cfg.soft_kriged(
                *ar,
                rr.data,
                rr.ladder,
                targets@[t as int],
                soft@[t as int]@,
                calib@,
                out,
            ),
        {
            let row: &Vec<Double> = &soft[t];
            rr.estimate_soft(targets[t], row, calib, ar)
        };
    let r: Result<Vec<CcdfEstimate>, GeostatError> = par_try_map(targets.len(), one);
    proof {
        if r is Err {
            let e = r->Err_0;
            let i = choose|i: usize|
                i < targets.len() && #[trigger] call_ensures(one, (i,), Err(e));
            assert(cfg.soft_kriged(
                *ar,
                data,
                &ladder,
                targets@[i as int],
                soft@[i as int]@,
                calib@,
                Err(e),
            ));
        }
    }
    r
}

/// `one` has a single model for all cutoffs, `each` has that model for each of them, and
/// they agree in everything else.
pub open spec fn shares_model<const D: usize, G: Fn([Double; D]) -> Double>(
    one: &IkConfig<D, G>,
    each: &IkConfig<D, G>,
) -> bool {
    &&& one.models@.len() == 1
    &&& each.models@.len() == each.cutoffs@.len()
    &&& forall|k: int| 0 <= k < each.models@.len() ==> #[trigger] each.models@[k] == one.models@[0]
    &&& one.cutoffs@ == each.cutoffs@
    &&& one.ordinary == each.ordinary
    &&& one.max_neighbors == each.max_neighbors
    &&& one.search_radius == each.search_radius
    &&& one.tail_min == each.tail_min
    &&& one.tail_max == each.tail_max
    &&& one.lower_tail == each.lower_tail
    &&& one.upper_tail == each.upper_tail
}

/// The estimates agree in every number.
pub open spec fn same_estimate(a: CcdfEstimate, b: CcdfEstimate) -> bool {
    &&& a.ccdf@ == b.ccdf@
    &&& a.e_type == b.e_type
    &&& a.cond_var == b.cond_var
}

/// From the same conditioning points, one model that serves all cutoffs gives what one
/// model each gives where those are the same.
pub proof fn one_model_gives_the_same_estimate<const D: usize, F: Fn(Op, Double, Double) -> Double, G: Fn([Double; D]) -> Double>(
    ar: Arithmetic<F>,
    data: &PointSet<D>,
    one: &IkConfig<D, G>,
    each: &IkConfig<D, G>,
    l1: &Ladder,
    l2: &Ladder,
    target: [Double; D],
    nb: Seq<usize>,
    r: Result<CcdfEstimate, GeostatError>,
)
    requires
        shares_model(one, each),
        all_total(one.models@),
        one.proper(),
        one.ladder_for(ar, data.attributes(), Ok(*l1)),
        each.ladder_for(ar, data.attributes(), Ok(*l2)),
    ensures
        one.estimated(ar, data, l1, target, nb, r) == each.estimated(ar, data, l2, target, nb, r),
        forall|e1: CcdfEstimate, e2: CcdfEstimate|
            #[trigger] one.estimated(ar, data, l1, target, nb, Ok(e1)) && #[trigger] each.estimated(
                ar,
                data,
                l2,
                target,
                nb,
                Ok(e2),
            ) ==> same_estimate(e1, e2),
{
    let a = one.cutoffs_with(l1);
    let b = each.cutoffs_with(l2);
    let values = values_at(data.attributes(), nb);
    let places = data.places();
    assert forall|k: int| 0 <= k < b.models@.len() implies (#[trigger] b.models@[k]).total() by {
        assert(one.models@[0].total());
    }
    assert(a.well_formed() && b.well_formed());
    assert forall|c: Result<Seq<Double>, GeostatError>|
        #![trigger a.local_outcome(ar, places, nb, values, target@, c)]
        #![trigger b.local_outcome(ar, places, nb, values, target@, c)]
        a.local_outcome(ar, places, nb, values, target@, c) == b.local_outcome(
            ar,
            places,
            nb,
            values,
            target@,
            c,
        ) by {
        one_model_serves_all_cutoffs(a, b, ar, places, nb, values, target@, c);
    }
    assert forall|c: Seq<Double>| moments_of(ar, c, one.classes_with(l1)) == #[trigger] moments_of(
        ar,
        c,
        each.classes_with(l2),
    ) by {
        crate::ccdf::lemma_same_moments(ar, c, one.classes_with(l1), each.classes_with(l2));
    }
    assert forall|e1: CcdfEstimate, e2: CcdfEstimate|
        #[trigger] one.estimated(ar, data, l1, target, nb, Ok(e1)) && #[trigger] each.estimated(
            ar,
            data,
            l2,
            target,
            nb,
            Ok(e2),
        ) implies same_estimate(e1, e2) by {
        let c1 = choose|c: Result<Seq<Double>, GeostatError>| #[trigger]
            a.local_outcome(ar, places, nb, values, target@, c) && one.summed_up(
                ar,
                l1,
                c,
                Ok(e1),
            );
        let c2 = choose|c: Result<Seq<Double>, GeostatError>| #[trigger]
            b.local_outcome(ar, places, nb, values, target@, c) && each.summed_up(
                ar,
                l2,
                c,
                Ok(e2),
            );
        a.local_is_unique(ar, places, nb, values, target@, c1->Ok_0, c2);
    }
}

/// One model that serves all cutoffs gives the estimates that one model each gives where
/// those are the same, bit for bit, and fails where they fail. Where points at the same
/// distance leave a choice in the conditioning points, see
/// `one_model_gives_the_same_estimate`.
pub proof fn one_model_gives_the_same_estimates<const D: usize, F: Fn(Op, Double, Double) -> Double, G: Fn([Double; D]) -> Double>(
    ar: Arithmetic<F>,
    data: &PointSet<D>,
    targets: Seq<[Double; D]>,
    one: &IkConfig<D, G>,
    each: &IkConfig<D, G>,
    r1: Result<Vec<CcdfEstimate>, GeostatError>,
    r2: Result<Vec<CcdfEstimate>, GeostatError>,
)
    requires
        ar.ieee(),
        shares_model(one, each),
        all_total(one.models@),
        forall|t: int|
            0 <= t < targets.len() ==> settled(
                ar,
                data.places(),
                one.max_neighbors,
                one.search_radius,
                #[trigger] targets[t],
            ),
        one.outcome(ar, data, targets, r1),
        each.outcome(ar, data, targets, r2),
    ensures
        r1 is Ok <==> r2 is Ok,
        r1 matches Ok(v1) ==> r2 matches Ok(v2) && v1@.len() == v2@.len() && forall|t: int|
            0 <= t < v1@.len() ==> same_estimate(#[trigger] v1@[t], v2@[t]),
{
    if one.proper() {
        let values = data.attributes();
        let l1 = choose|ladder: Result<Ladder, GeostatError>| #[trigger]
            one.ladder_for(ar, values, ladder) && ladder_leads(one, ar, data, targets, ladder, r1);
        let l2 = choose|ladder: Result<Ladder, GeostatError>| #[trigger]
            each.ladder_for(ar, values, ladder) && ladder_leads(each, ar, data, targets, ladder, r2);
        assert(l1 is Ok <==> l2 is Ok);
        if l1 is Ok {
            let a = l1->Ok_0;
            let b = l2->Ok_0;
            assert forall|t: int, e1: CcdfEstimate, q: Result<CcdfEstimate, GeostatError>|
                0 <= t < targets.len() && #[trigger] one.kriged(
                    ar,
                    data,
                    &a,
                    targets[t],
                    Ok(e1),
                ) && #[trigger] each.kriged(ar, data, &b, targets[t], q) implies q matches Ok(
                e2,
            ) && same_estimate(e1, e2) by {
                lemma_same_kriged(ar, data, one, each, &a, &b, targets[t], e1, q);
            }
            assert forall|t: int, e2: CcdfEstimate, q: Result<CcdfEstimate, GeostatError>|
                0 <= t < targets.len() && #[trigger] each.kriged(
                    ar,
                    data,
                    &b,
                    targets[t],
                    Ok(e2),
                ) && #[trigger] one.kriged(ar, data, &a, targets[t], q) implies q is Ok by {
                lemma_kriged_moves(ar, data, one, each, &a, &b, targets[t], Ok(e2));
                lemma_kriged_moves(ar, data, one, each, &a, &b, targets[t], q);
                lemma_same_kriged(ar, data, one, each, &a, &b, targets[t], e2, q);
            }
            if let (Ok(v1), Err(e)) = (r1, r2) {
                let t = choose|t: int|
                    0 <= t < targets.len() && each.kriged(
                        ar,
                        data,
                        &b,
                        #[trigger] targets[t],
                        Err(e),
                    );
                assert(one.kriged(ar, data, &a, targets[t], Ok(v1@[t])));
            }
            if let (Err(e), Ok(v2)) = (r1, r2) {
                let t = choose|t: int|
                    0 <= t < targets.len() && one.kriged(
                        ar,
                        data,
                        &a,
                        #[trigger] targets[t],
                        Err(e),
                    );
                assert(each.kriged(ar, data, &b, targets[t], Ok(v2@[t])));
            }
            if let (Ok(v1), Ok(v2)) = (r1, r2) {
                assert forall|t: int| 0 <= t < v1@.len() implies same_estimate(
                    #[trigger] v1@[t],
                    v2@[t],
                ) by {
                    assert(one.kriged(ar, data, &a, targets[t], Ok(v1@[t])));
                    assert(each.kriged(ar, data, &b, targets[t], Ok(v2@[t])));
                }
            }
        }
    }
}

/// What follows from a ladder.
spec fn ladder_leads<const D: usize, F: Fn(Op, Double, Double) -> Double, G: Fn([Double; D]) -> Double>(
    cfg: &IkConfig<D, G>,
    ar: Arithmetic<F>,
    data: &PointSet<D>,
    targets: Seq<[Double; D]>,
    ladder: Result<Ladder, GeostatError>,
    r: Result<Vec<CcdfEstimate>, GeostatError>,
) -> bool {
    match ladder {
        Err(e) => r == Err::<Vec<CcdfEstimate>, GeostatError>(e),
        Ok(l) => match r {
            Ok(v) => v@.len() == targets.len() && forall|t: int|
                0 <= t < v@.len() ==> cfg.kriged(ar, data, &l, targets[t], Ok(#[trigger] v@[t])),
            Err(e) => exists|t: int|
                0 <= t < targets.len() && cfg.kriged(ar, data, &l, #[trigger] targets[t], Err(e)),
        },
    }
}

proof fn lemma_kriged_moves<const D: usize, F: Fn(Op, Double, Double) -> Double, G: Fn([Double; D]) -> Double>(
    ar: Arithmetic<F>,
    data: &PointSet<D>,
    one: &IkConfig<D, G>,
    each: &IkConfig<D, G>,
    a: &Ladder,
    b: &Ladder,
    target: [Double; D],
    r: Result<CcdfEstimate, GeostatError>,
)
    requires
        shares_model(one, each),
        all_total(one.models@),
        one.proper(),
        one.ladder_for(ar, data.attributes(), Ok(*a)),
        each.ladder_for(ar, data.attributes(), Ok(*b)),
    ensures
        one.kriged(ar, data, a, target, r) == each.kriged(ar, data, b, target, r),
{
    let places = data.places();
    if one.kriged(ar, data, a, target, r) {
        let nb = choose|nb: Seq<usize>| #[trigger]
            one.conditions(ar, places, target, nb) && one.estimated(ar, data, a, target, nb, r);
        one_model_gives_the_same_estimate(ar, data, one, each, a, b, target, nb, r);
        assert(each.conditions(ar, places, target, nb));
    }
    if each.kriged(ar, data, b, target, r) {
        let nb = choose|nb: Seq<usize>| #[trigger]
            each.conditions(ar, places, target, nb) && each.estimated(ar, data, b, target, nb, r);
        one_model_gives_the_same_estimate(ar, data, one, each, a, b, target, nb, r);
        assert(one.conditions(ar, places, target, nb));
    }
}

proof fn lemma_same_kriged<const D: usize, F: Fn(Op, Double, Double) -> Double, G: Fn([Double; D]) -> Double>(
    ar: Arithmetic<F>,
    data: &PointSet<D>,
    one: &IkConfig<D, G>,
    each: &IkConfig<D, G>,
    a: &Ladder,
    b: &Ladder,
    target: [Double; D],
    e1: CcdfEstimate,
    q: Result<CcdfEstimate, GeostatError>,
)
    requires
        ar.ieee(),
        shares_model(one, each),
        all_total(one.models@),
        one.proper(),
        settled(ar, data.places(), one.max_neighbors, one.search_radius, target),
        one.ladder_for(ar, data.attributes(), Ok(*a)),
        each.ladder_for(ar, data.attributes(), Ok(*b)),
        one.kriged(ar, data, a, target, Ok(e1)),
        each.kriged(ar, data, b, target, q),
    ensures
        q matches Ok(e2) && same_estimate(e1, e2),
{
    let places = data.places();
    let n1 = choose|nb: Seq<usize>| #[trigger]
        one.conditions(ar, places, target, nb) && one.estimated(ar, data, a, target, nb, Ok(e1));
    let n2 = choose|nb: Seq<usize>| #[trigger]
        each.conditions(ar, places, target, nb) && each.estimated(ar, data, b, target, nb, q);
    conditions_are_unique(
        ar,
        places,
        one.max_neighbors,
        one.search_radius,
        target,
        n1,
        n2,
    );
    let values = values_at(data.attributes(), n1);
    let c1 = choose|c: Result<Seq<Double>, GeostatError>| #[trigger]
        one.cutoffs_with(a).local_outcome(ar, places, n1, values, target@, c) && one.summed_up(
            ar,
            a,
            c,
            Ok(e1),
        );
    one_model_gives_the_same_estimate(ar, data, one, each, a, b, target, n1, q);
    let c2 = choose|c: Result<Seq<Double>, GeostatError>| #[trigger]
        one.cutoffs_with(a).local_outcome(ar, places, n1, values, target@, c) && one.summed_up(
            ar,
            a,
            c,
            q,
        );
    one.cutoffs_with(a).local_is_unique(ar, places, n1, values, target@, c1->Ok_0, c2);
}

} // verus!

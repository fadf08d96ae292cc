//! Choice of parameters by predictive accuracy: each candidate is scored by
//! cross-validation, and the one with the greatest score is kept.

use vstd::prelude::*;

use crate::arith::{num, Arithmetic, Op};
use crate::data::PointSet;
use crate::double::{Double, NOT_A_NUMBER};
use crate::error::{invalid, invalid_parameter, GeostatError};
use crate::interpolation::{
    idw_cross_validate, idw_validated, knn_cross_validate, knn_validated, searchable, CvResult,
};
use crate::kriging::{KrigingConfig, KrigingMethod};

verus! {

/// Result of a search: the best candidate, its score, and all scores in the
/// order of the candidates.
#[derive(Debug)]
pub struct TuneResult<P> {
    /// The candidate with the greatest score.
    pub best: P,
    /// Its score.
    pub best_vecv: Double,
    /// Candidates and scores; a score that is not finite tells that the
    /// candidate's cross-validation failed.
    pub trace: Vec<(P, Double)>,
}

/// Entry `b` is the last of those with the greatest finite score, in the total
/// order of doubles.
pub open spec fn wins<P>(trace: Seq<(P, Double)>, b: int) -> bool {
    &&& 0 <= b < trace.len()
    &&& trace[b].1.is_finite()
    &&& forall|i: int|
        0 <= i < trace.len() && (#[trigger] trace[i]).1.is_finite() ==> trace[i].1.total()
            <= trace[b].1.total() && (i > b ==> trace[i].1.total() < trace[b].1.total())
}

/// No score is finite.
pub open spec fn none_finite<P>(trace: Seq<(P, Double)>) -> bool {
    forall|i: int| 0 <= i < trace.len() ==> !(#[trigger] trace[i]).1.is_finite()
}

/// What choosing from scored candidates gives.
pub open spec fn picked<P>(trace: Seq<(P, Double)>, r: Result<TuneResult<P>, GeostatError>) -> bool {
    match r {
        Ok(t) => t.trace@ == trace && exists|b: int| #[trigger]
            wins(trace, b) && t.best == trace[b].0 && t.best_vecv == trace[b].1,
        Err(e) => none_finite(trace) && invalid(e, "no candidate produced a finite VEcv"@),
    }
}

/// Whichever candidate is chosen, it is the same one.
pub proof fn winner_is_unique<P>(trace: Seq<(P, Double)>, a: int, b: int)
    requires
        wins(trace, a),
        wins(trace, b),
    ensures
        a == b,
{
    assert(trace[a].1.total() <= trace[b].1.total());
    assert(trace[b].1.total() <= trace[a].1.total());
}

/// Chooses the candidate with the greatest finite score.
pub fn pick_best<P: Copy>(trace: Vec<(P, Double)>) -> (r: Result<TuneResult<P>, GeostatError>)
    ensures
        picked(trace@, r),
{
    let mut best: Option<usize> = None;
    for i in 0..trace.len()
        invariant
            match best {
                None => none_finite(trace@.take(i as int)),
                Some(b) => b < i && wins(trace@.take(i as int), b as int),
            },
    {
        let ghost before = trace@.take(i as int);
        let ghost after = trace@.take(i + 1);
        let score: Double = trace[i].1;
        proof {
            assert(after.len() == i + 1);
            assert(after[i as int] == trace@[i as int]);
            assert forall|j: int| 0 <= j < i implies #[trigger] after[j] == before[j] by {}
        }
        if score.is_finite() {
            let better: bool = match best {
                None => true,
                Some(b) => trace[b].1.total_key() <= score.total_key(),
            };
            if better {
                best = Some(i);
                proof {
                    assert forall|j: int|
                        0 <= j < after.len() && (#[trigger] after[j]).1.is_finite() implies after[j].1.total()
                        <= after[i as int].1.total() by {
                        if j < i {
                            assert(before[j].1.is_finite());
                        }
                    }
                    assert(wins(after, i as int));
                }
            } else {
                proof {
                    let b = best->0 as int;
                    assert forall|j: int|
                        0 <= j < after.len() && (#[trigger] after[j]).1.is_finite() implies after[j].1.total()
                        <= after[b].1.total() && (j > b ==> after[j].1.total()
                        < after[b].1.total()) by {
                        if j < i {
                            assert(before[j].1.is_finite());
                        }
                    }
                    assert(wins(after, b));
                }
            }
        } else {
            proof {
                match best {
                    None => {},
                    Some(b) => {
                        assert forall|j: int|
                            0 <= j < after.len() && (#[trigger] after[j]).1.is_finite() implies after[j].1.total()
                            <= after[b as int].1.total() && (j > b ==> after[j].1.total()
                            < after[b as int].1.total()) by {
                            assert(before[j].1.is_finite());
                        }
                        assert(wins(after, b as int));
                    },
                }
            }
        }
    }
    assert(trace@.take(trace.len() as int) =~= trace@);
    match best {
        None => Err(invalid_parameter("no candidate produced a finite VEcv")),
        Some(b) => {
            assert(wins(trace@, b as int));
            let winner: P = trace[b].0;
            let best_vecv: Double = trace[b].1;
            Ok(TuneResult { best: winner, best_vecv, trace })
        },
    }
}

/// The score of a cross-validation; NaN where it fails.
pub open spec fn scored<S: Fn(&CvResult) -> Double>(
    score: S,
    cv: Result<CvResult, GeostatError>,
    v: Double,
) -> bool {
    match cv {
        Ok(c) => call_ensures(score, (&c,), v),
        Err(_) => v == num(NOT_A_NUMBER),
    }
}

/// Every cross-validation can be scored.
pub open spec fn scores_all<S: Fn(&CvResult) -> Double>(score: S) -> bool {
    forall|cv: &CvResult| #[trigger] call_requires(score, (cv,))
}

fn score_of<S: Fn(&CvResult) -> Double>(score: &S, cv: Result<CvResult, GeostatError>) -> (v: Double)
    requires
        scores_all(*score),
    ensures
        scored(*score, cv, v),
{
    match cv {
        Ok(c) => score(&c),
        Err(_) => Double::not_a_number(),
    }
}

/// `v` is the score of inverse-distance weighting with this power.
pub open spec fn idw_scored<const D: usize, S: Fn(&CvResult) -> Double, F: Fn(Op, Double, Double) -> Double>(
    ar: Arithmetic<F>,
    data: &PointSet<D>,
    power: Double,
    max_neighbors: Option<usize>,
    radius: Option<Double>,
    score: S,
    v: Double,
) -> bool {
    exists|cv: Result<CvResult, GeostatError>| #[trigger]
        idw_validated(ar, data, power, max_neighbors, radius, cv) && scored(score, cv, v)
}

/// What the choice of a power gives.
pub open spec fn power_tuned<const D: usize, S: Fn(&CvResult) -> Double, F: Fn(Op, Double, Double) -> Double>(
    ar: Arithmetic<F>,
    data: &PointSet<D>,
    powers: Seq<Double>,
    max_neighbors: Option<usize>,
    radius: Option<Double>,
    score: S,
    r: Result<TuneResult<Double>, GeostatError>,
) -> bool {
    if powers.len() == 0 {
        r matches Err(e) && invalid(e, "no IDW powers to try"@)
    } else {
        exists|trace: Seq<(Double, Double)>| #[trigger]
            picked(trace, r) && trace.len() == powers.len() && forall|i: int|
                0 <= i < trace.len() ==> (#[trigger] trace[i]).0 == powers[i] && idw_scored(
                    ar,
                    data,
                    powers[i],
                    max_neighbors,
                    radius,
                    score,
                    trace[i].1,
                )
    }
}

/// Chooses the power of inverse-distance weighting by cross-validation; `score`
/// tells how good one is.
pub fn tune_idw_power<
    const D: usize,
    S: Fn(&CvResult) -> Double,
    F: Fn(Op, Double, Double) -> Double + Sync,
>(
    data: &PointSet<D>,
    powers: &Vec<Double>,
    max_neighbors: Option<usize>,
    radius: Option<Double>,
    score: &S,
    ar: &Arithmetic<F>,
) -> (r: Result<TuneResult<Double>, GeostatError>)
    requires
        searchable(data),
        scores_all(*score),
        ar.ieee(),
    ensures
        power_tuned(*ar, data, powers@, max_neighbors, radius, *score, r),
{
    if powers.len() == 0 {
        return Err(invalid_parameter("no IDW powers to try"));
    }
    let mut trace: Vec<(Double, Double)> = Vec::new();
    for i in 0..powers.len()
        invariant
            searchable(data),
            scores_all(*score),
            ar.ieee(),
            trace.len() == i,
            forall|k: int|
                0 <= k < i ==> (#[trigger] trace@[k]).0 == powers@[k] && idw_scored(
                    *ar,
                    data,
                    powers@[k],
                    max_neighbors,
                    radius,
                    *score,
                    trace@[k].1,
                ),
    {
        let cv: Result<CvResult, GeostatError> = idw_cross_validate(
            data,
            powers[i],
            max_neighbors,
            radius,
            ar,
        );
        assert(idw_validated(*ar, data, powers@[i as int], max_neighbors, radius, cv));
        let v: Double = score_of(score, cv);
        assert(idw_scored(*ar, data, powers@[i as int], max_neighbors, radius, *score, v));
        trace.push((powers[i], v));
    }
    let r: Result<TuneResult<Double>, GeostatError> = pick_best(trace);
    assert(picked(trace@, r));
    r
}

/// `v` is the score of averages of `k` neighbors.
pub open spec fn knn_scored<const D: usize, S: Fn(&CvResult) -> Double, F: Fn(Op, Double, Double) -> Double>(
    ar: Arithmetic<F>,
    data: &PointSet<D>,
    k: usize,
    radius: Option<Double>,
    score: S,
    v: Double,
) -> bool {
    exists|cv: Result<CvResult, GeostatError>| #[trigger]
        knn_validated(ar, data, k, radius, cv) && scored(score, cv, v)
}

/// What the choice of a number of neighbors gives.
pub open spec fn k_tuned<const D: usize, S: Fn(&CvResult) -> Double, F: Fn(Op, Double, Double) -> Double>(
    ar: Arithmetic<F>,
    data: &PointSet<D>,
    ks: Seq<usize>,
    radius: Option<Double>,
    score: S,
    r: Result<TuneResult<usize>, GeostatError>,
) -> bool {
    if ks.len() == 0 {
        r matches Err(e) && invalid(e, "no k values to try"@)
    } else {
        exists|trace: Seq<(usize, Double)>| #[trigger]
            picked(trace, r) && trace.len() == ks.len() && forall|i: int|
                0 <= i < trace.len() ==> (#[trigger] trace[i]).0 == ks[i] && knn_scored(
                    ar,
                    data,
                    ks[i],
                    radius,
                    score,
                    trace[i].1,
                )
    }
}

/// Chooses the number of neighbors to average by cross-validation.
pub fn tune_knn_k<
    const D: usize,
    S: Fn(&CvResult) -> Double,
    F: Fn(Op, Double, Double) -> Double + Sync,
>(
    data: &PointSet<D>,
    ks: &Vec<usize>,
    radius: Option<Double>,
    score: &S,
    ar: &Arithmetic<F>,
) -> (r: Result<TuneResult<usize>, GeostatError>)
    requires
        searchable(data),
        scores_all(*score),
        ar.ieee(),
    ensures
        k_tuned(*ar, data, ks@, radius, *score, r),
{
    if ks.len() == 0 {
        return Err(invalid_parameter("no k values to try"));
    }
    let mut trace: Vec<(usize, Double)> = Vec::new();
    for i in 0..ks.len()
        invariant
            searchable(data),
            scores_all(*score),
            ar.ieee(),
            trace.len() == i,
            forall|k: int|
                0 <= k < i ==> (#[trigger] trace@[k]).0 == ks@[k] && knn_scored(
                    *ar,
                    data,
                    ks@[k],
                    radius,
                    *score,
                    trace@[k].1,
                ),
    {
        let cv: Result<CvResult, GeostatError> = knn_cross_validate(data, ks[i], radius, ar);
        assert(knn_validated(*ar, data, ks@[i as int], radius, cv));
        let v: Double = score_of(score, cv);
        assert(knn_scored(*ar, data, ks@[i as int], radius, *score, v));
        trace.push((ks[i], v));
    }
    let r: Result<TuneResult<usize>, GeostatError> = pick_best(trace);
    assert(picked(trace@, r));
    r
}

/// Kriging with at most `n` neighbors within the radius.
pub open spec fn neighborhood_config(
    method: KrigingMethod,
    n: usize,
    radius: Option<Double>,
) -> KrigingConfig {
    KrigingConfig {
        method,
        max_neighbors: Some(n),
        search_radius: radius,
        min_neighbors: None,
        max_per_octant: None,
    }
}

/// `v` is the score of kriging with at most `n` neighbors; `validate` does the
/// cross-validation.
pub open spec fn kriging_scored<
    V: Fn(&KrigingConfig) -> Result<CvResult, GeostatError>,
    S: Fn(&CvResult) -> Double,
>(
    validate: V,
    method: KrigingMethod,
    n: usize,
    radius: Option<Double>,
    score: S,
    v: Double,
) -> bool {
    exists|cv: Result<CvResult, GeostatError>| #[trigger]
        call_ensures(validate, (&neighborhood_config(method, n, radius),), cv) && scored(
            score,
            cv,
            v,
        )
}

/// What the choice of a neighborhood size gives.
pub open spec fn size_tuned<
    V: Fn(&KrigingConfig) -> Result<CvResult, GeostatError>,
    S: Fn(&CvResult) -> Double,
>(
    validate: V,
    method: KrigingMethod,
    sizes: Seq<usize>,
    radius: Option<Double>,
    score: S,
    r: Result<TuneResult<usize>, GeostatError>,
) -> bool {
    if sizes.len() == 0 {
        r matches Err(e) && invalid(e, "no neighborhood sizes to try"@)
    } else {
        exists|trace: Seq<(usize, Double)>| #[trigger]
            picked(trace, r) && trace.len() == sizes.len() && forall|i: int|
                0 <= i < trace.len() ==> (#[trigger] trace[i]).0 == sizes[i] && kriging_scored(
                    validate,
                    method,
                    sizes[i],
                    radius,
                    score,
                    trace[i].1,
                )
    }
}

/// Chooses the size of the kriging neighborhood by cross-validation, which
/// `validate` does for a configuration.
pub fn tune_kriging_neighbors<
    V: Fn(&KrigingConfig) -> Result<CvResult, GeostatError>,
    S: Fn(&CvResult) -> Double,
>(
    validate: &V,
    method: KrigingMethod,
    candidates: &Vec<usize>,
    radius: Option<Double>,
    score: &S,
) -> (r: Result<TuneResult<usize>, GeostatError>)
    requires
        forall|cfg: &KrigingConfig| #[trigger] call_requires(*validate, (cfg,)),
        scores_all(*score),
    ensures
        size_tuned(*validate, method, candidates@, radius, *score, r),
{
    if candidates.len() == 0 {
        return Err(invalid_parameter("no neighborhood sizes to try"));
    }
    let mut trace: Vec<(usize, Double)> = Vec::new();
    for i in 0..candidates.len()
        invariant
            forall|cfg: &KrigingConfig| #[trigger] call_requires(*validate, (cfg,)),
            scores_all(*score),
            trace.len() == i,
            forall|k: int|
                0 <= k < i ==> (#[trigger] trace@[k]).0 == candidates@[k] && kriging_scored(
                    *validate,
                    method,
                    candidates@[k],
                    radius,
                    *score,
                    trace@[k].1,
                ),
    {
        let cfg: KrigingConfig = KrigingConfig {
            method,
            max_neighbors: Some(candidates[i]),
            search_radius: radius,
            min_neighbors: None,
            max_per_octant: None,
        };
        let cv: Result<CvResult, GeostatError> = validate(&cfg);
        assert(cfg == neighborhood_config(method, candidates@[i as int], radius));
        assert(call_ensures(
            *validate,
            (&neighborhood_config(method, candidates@[i as int], radius),),
            cv,
        ));
        let v: Double = score_of(score, cv);
        assert(kriging_scored(*validate, method, candidates@[i as int], radius, *score, v));
        trace.push((candidates[i], v));
    }
    let r: Result<TuneResult<usize>, GeostatError> = pick_best(trace);
    assert(picked(trace@, r));
    r
}

} // verus!

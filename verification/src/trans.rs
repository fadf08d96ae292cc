//! Lognormal kriging: the logarithms are kriged, and the estimates are
//! transformed back with the correction that keeps them unbiased.

use vstd::prelude::*;

use crate::arith::{num, Arithmetic, Op, HALF};
use crate::covariance::Covariance;
use crate::data::{finite_values, PointSet};
use crate::double::{Double, NOT_A_NUMBER};
use crate::error::{invalid, invalid_parameter, GeostatError};
use crate::kriging::{Kriging, KrigingConfig, KrigingEstimate, KrigingMethod};
use crate::parallel::par_map;
use crate::regression::{kriging_ok, kriging_refused, revalue};

verus! {

/// A lognormal-kriging estimate.
#[derive(Debug, Clone, Copy, PartialEq, Eq, Structural)]
pub struct LognormalEstimate {
    /// Prediction in the units of the data.
    pub value: Double,
    /// Kriging mean of the logarithm.
    pub log_mean: Double,
    /// Kriging variance of the logarithm.
    pub log_variance: Double,
}

/// All values are positive.
pub open spec fn positive_values(values: Seq<Double>) -> bool {
    forall|i: int| 0 <= i < values.len() ==> (#[trigger] values[i]).is_positive()
}

/// Logarithms of values.
pub open spec fn logs_of<F: Fn(Op, Double, Double) -> Double>(
    ar: Arithmetic<F>,
    values: Seq<Double>,
) -> Seq<Double> {
    Seq::new(values.len(), |i: int| ar.ln(values[i]))
}

/// Back-transformed estimate: half the variance is added to the log mean and,
/// for ordinary kriging, the Lagrange multiplier is taken off.
pub open spec fn unlogged<F: Fn(Op, Double, Double) -> Double>(
    ar: Arithmetic<F>,
    simple: bool,
    e: KrigingEstimate,
) -> LognormalEstimate {
    let half = ar.times(num(HALF), e.variance);
    let mu = match e.lagrange {
        Some(m) => m,
        None => num(0),
    };
    let correction = if simple {
        half
    } else {
        ar.minus(half, mu)
    };
    LognormalEstimate {
        value: ar.exp(ar.plus(e.value, correction)),
        log_mean: e.value,
        log_variance: e.variance,
    }
}

/// The estimate of a target, all NaN where prediction fails.
pub open spec fn unlogged_or_nan<F: Fn(Op, Double, Double) -> Double>(
    ar: Arithmetic<F>,
    simple: bool,
    r: Result<KrigingEstimate, GeostatError>,
) -> LognormalEstimate {
    match r {
        Ok(e) => unlogged(ar, simple, e),
        Err(_) => LognormalEstimate {
            value: num(NOT_A_NUMBER),
            log_mean: num(NOT_A_NUMBER),
            log_variance: num(NOT_A_NUMBER),
        },
    }
}

/// `e` is the estimate at a target.
pub open spec fn is_unlogged<'a, const D: usize, G: Fn([Double; D]) -> Double, F: Fn(Op, Double, Double) -> Double>(
    ar: Arithmetic<F>,
    k: Kriging<'a, D, G>,
    simple: bool,
    target: [Double; D],
    e: LognormalEstimate,
) -> bool {
    exists|r: Result<KrigingEstimate, GeostatError>| #[trigger]
        k.answers(ar, target, r) && e == unlogged_or_nan(ar, simple, r)
}

/// `out` are the estimates at the targets.
pub open spec fn all_unlogged<'a, const D: usize, G: Fn([Double; D]) -> Double, F: Fn(Op, Double, Double) -> Double>(
    ar: Arithmetic<F>,
    k: Kriging<'a, D, G>,
    simple: bool,
    targets: Seq<[Double; D]>,
    out: Seq<LognormalEstimate>,
) -> bool {
    &&& out.len() == targets.len()
    &&& forall|i: int|
        0 <= i < out.len() ==> is_unlogged(ar, k, simple, targets[i], #[trigger] out[i])
}

/// What lognormal kriging gives.
pub open spec fn lognormal_outcome<const D: usize, G: Fn([Double; D]) -> Double, F: Fn(Op, Double, Double) -> Double>(
    ar: Arithmetic<F>,
    data: &PointSet<D>,
    targets: Seq<[Double; D]>,
    model: &Covariance<D, G>,
    config: KrigingConfig,
    r: Result<Vec<LognormalEstimate>, GeostatError>,
) -> bool {
    let logs = logs_of(ar, data.attributes());
    if !(config.method is Simple || config.method is Ordinary) {
        r matches Err(e) && invalid(
            e,
            "lognormal kriging supports simple and ordinary kriging only"@,
        )
    } else if !positive_values(data.attributes()) {
        r matches Err(e) && invalid(e, "lognormal kriging requires strictly positive data values"@)
    } else if !finite_values(logs) {
        r matches Err(e) && invalid(e, "non-finite value"@)
    } else if !kriging_ok(config, model.traits.has_power, data.places()) {
        r matches Err(e) && kriging_refused(config, model.traits.has_power, data.places(), e)
    } else {
        r matches Ok(out) && exists|log_data: PointSet<D>, k: Kriging<D, G>|
            log_data.places() == data.places() && log_data.attributes() == logs && #[trigger] k.built(
                ar,
                &log_data,
                model,
                config,
                Seq::empty(),
                Seq::empty(),
            ) && all_unlogged(ar, k, config.method is Simple, targets, out@)
    }
}

fn unlog<F: Fn(Op, Double, Double) -> Double>(
    r: Result<KrigingEstimate, GeostatError>,
    simple: bool,
    ar: &Arithmetic<F>,
) -> (e: LognormalEstimate)
    requires
        ar.total(),
    ensures
        e == unlogged_or_nan(*ar, simple, r),
{
    match r {
        Err(_) => LognormalEstimate {
            value: Double::not_a_number(),
            log_mean: Double::not_a_number(),
            log_variance: Double::not_a_number(),
        },
        Ok(e) => {
            let half: Double = ar.times(num(HALF), e.variance);
            let mu: Double = match e.lagrange {
                Some(m) => m,
                None => Double::zero(),
            };
            let correction: Double = if simple {
                half
            } else {
                ar.minus(half, mu)
            };
            LognormalEstimate {
                value: ar.exp(ar.plus(e.value, correction)),
                log_mean: e.value,
                log_variance: e.variance,
            }
        },
    }
}

fn predict_one<'a, const D: usize, G: Fn([Double; D]) -> Double, F: Fn(Op, Double, Double) -> Double>(
    k: &Kriging<'a, D, G>,
    target: [Double; D],
    simple: bool,
    ar: &Arithmetic<F>,
) -> (e: LognormalEstimate)
    requires
        k.ready(ar),
    ensures
        is_unlogged(*ar, *k, simple, target, e),
{
    let r: Result<KrigingEstimate, GeostatError> = k.predict(target, ar);
    assert(k.answers(*ar, target, r));
    unlog(r, simple, ar)
}

/// Ordinary or simple lognormal kriging at targets. `data` holds the original,
/// strictly positive values; `log_model` is the model of their logarithms.
pub fn lognormal_kriging<
    const D: usize,
    G: Fn([Double; D]) -> Double + Sync,
    F: Fn(Op, Double, Double) -> Double + Sync,
>(
    data: &PointSet<D>,
    targets: &Vec<[Double; D]>,
    log_model: &Covariance<D, G>,
    config: &KrigingConfig,
    ar: &Arithmetic<F>,
) -> (r: Result<Vec<LognormalEstimate>, GeostatError>)
    requires
        Kriging::usable(*ar, data, log_model, config.method),
    ensures
        lognormal_outcome(*ar, data, targets@, log_model, *config, r),
{
    let simple: bool = match config.method {
        KrigingMethod::Simple { .. } => true,
        KrigingMethod::Ordinary => false,
        _ => {
            return Err(
                invalid_parameter("lognormal kriging supports simple and ordinary kriging only"),
            );
        },
    };
    let n: usize = data.len();
    let mut logs: Vec<Double> = Vec::new();
    for i in 0..n
        invariant
            ar.total(),
            data.well_formed(),
            n == data.places().len(),
            config.method is Simple || config.method is Ordinary,
            forall|j: int| 0 <= j < i ==> (#[trigger] data.attributes()[j]).is_positive(),
            logs@ =~= logs_of(*ar, data.attributes()).take(i as int),
    {
        let v: Double = data.value(i);
        if !v.is_positive() {
            assert(!data.attributes()[i as int].is_positive());
            return Err(
                invalid_parameter("lognormal kriging requires strictly positive data values"),
            );
        }
        logs.push(ar.ln(v));
    }
    assert(logs@ =~= logs_of(*ar, data.attributes()));
    let log_data: PointSet<D> = match revalue(data, logs) {
        Err(e) => {
            return Err(e);
        },
        Ok(p) => p,
    };
    let kriging: Kriging<D, G> = match Kriging::new(&log_data, log_model, *config, ar) {
        Err(e) => {
            return Err(e);
        },
        Ok(k) => k,
    };
    let k: &Kriging<D, G> = &kriging;
    let one = |i: usize| -> (e: LognormalEstimate)
        requires
            i < targets.len(),
            k.ready(ar),
        ensures
            is_unlogged(*ar, *k, simple, targets@[i as int], e),
        { predict_one(k, targets[i], simple, ar) };
    let out: Vec<LognormalEstimate> = par_map(targets.len(), one);
    assert(all_unlogged(*ar, kriging, simple, targets@, out@));
    Ok(out)
}

} // verus!

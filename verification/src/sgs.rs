//! Sequential Gaussian simulation: normal scores of the data, a Gaussian field
//! per realization, and the way back to data units.
//!
//! Realizations run in parallel; each derives its own stream from the base
//! seed, so results do not depend on how threads are scheduled.

use vstd::prelude::*;

use crate::arith::{Arithmetic, Op};
use crate::covariance::Covariance;
use crate::data::{finite_values, PointSet};
use crate::double::Double;
use crate::error::{invalid, invalid_parameter, mismatch, mismatched, GeostatError};
use crate::gaussian::{
    field_excludes_failure, field_fails, field_is_unique, is_field, playable,
    simulate_gaussian_path,
};
use crate::grid::{Grid2D, Grid3D};
use crate::model::{check_gaussian, gaussian_ok, gaussian_refused, ModelTraits};
use crate::parallel::par_try_map;
use crate::rng::{lively, realization_seed, stream_seed};
use crate::simulation::{
    level_list, levels_are_unique_2d, levels_are_unique_3d, levels_for_2d, levels_for_3d,
    multigrid_2d, multigrid_3d,
};
use crate::stage::{after_path, can_lay_out, same_stage, systems_fit, Stage};
use crate::text::{counts_text, digits};
use crate::tails::{keeps_order, TailModel};
use crate::transform::{
    ascends, clamped_tails, fit_is_unique, fit_ok, fit_refused, fitted, fitted_ends, largest,
    looked_up, lookup_is_unique, smallest, unit_weights, NormalScore, Tails,
};
use crate::walk::Quotas;

verus! {

/// Configuration for sequential Gaussian simulation.
#[derive(Debug)]
#[non_exhaustive]
pub struct SgsConfig {
    /// Number of realizations to generate.
    pub n_realizations: usize,
    /// Base seed; realization `r` uses a stream derived from `(seed, r)`.
    pub seed: u64,
    /// Maximum number of conditioning points per node.
    pub max_neighbors: usize,
    /// Optional search radius for conditioning points.
    pub search_radius: Option<Double>,
    /// Tail extrapolation for the back-transform. The default clamps
    /// realizations to the data range.
    pub tails: Tails,
    /// Optional declustering weights, one positive weight per data point.
    pub decluster_weights: Option<Vec<Double>>,
    /// Separate quota for previously simulated nodes. When set, each
    /// neighborhood takes up to `max_neighbors` data plus up to this many
    /// simulated nodes; otherwise data and nodes compete by distance for
    /// `max_neighbors` places.
    pub max_node_neighbors: Option<usize>,
    /// Multiple-grid levels (grid entry points only): nodes on the coarsest
    /// sub-grid (stride `2^multigrid`) are simulated first. `0` keeps a fully
    /// random path.
    pub multigrid: u8,
}

impl Default for SgsConfig {
    fn default() -> (c: SgsConfig)
        ensures
            c.n_realizations == 1,
            c.seed == 42,
            c.max_neighbors == 16,
            c.search_radius is None,
            c.tails == clamped_tails(),
            c.decluster_weights is None,
            c.max_node_neighbors is None,
            c.multigrid == 0,
    {
        SgsConfig {
            n_realizations: 1,
            seed: 42,
            max_neighbors: 16,
            search_radius: None,
            tails: Tails::default(),
            decluster_weights: None,
            max_node_neighbors: None,
            multigrid: 0,
        }
    }
}

/// Result of a run on a 2-D grid: realizations in grid storage order, in data
/// units.
#[derive(Debug)]
pub struct SgsResult {
    /// The simulation grid.
    pub grid: Grid2D,
    /// One vector of `grid.n_cells()` values per realization.
    pub realizations: Vec<Vec<Double>>,
}

impl SgsConfig {
    /// The weights of `n` data: those given, or equal ones.
    pub open spec fn weights(self, n: nat) -> Seq<Double> {
        match self.decluster_weights {
            Some(w) => w@,
            None => unit_weights(n),
        }
    }

    /// Search limits.
    pub open spec fn quotas(self) -> Quotas {
        Quotas {
            max_neighbors: self.max_neighbors,
            max_node_neighbors: self.max_node_neighbors,
            radius: self.search_radius,
        }
    }
}

/// A simulation can be run.
pub open spec fn sgs_ok(values: Seq<Double>, model: ModelTraits, n: nat, cfg: SgsConfig) -> bool {
    &&& gaussian_ok(model, cfg.n_realizations, cfg.max_neighbors, cfg.search_radius, n)
    &&& cfg.weights(values.len()).len() == values.len()
    &&& fit_ok(values, cfg.weights(values.len()), cfg.tails)
}

/// Why it cannot: the first check that fails.
pub open spec fn sgs_refused(
    values: Seq<Double>,
    model: ModelTraits,
    dims: nat,
    n: nat,
    cfg: SgsConfig,
    e: GeostatError,
) -> bool {
    if !gaussian_ok(model, cfg.n_realizations, cfg.max_neighbors, cfg.search_radius, n) {
        gaussian_refused(
            "SGS needs a valid covariance function and cannot use the unbounded Power model"@,
            model,
            dims,
            cfg.n_realizations,
            cfg.max_neighbors,
            cfg.search_radius,
            e,
        )
    } else if cfg.weights(values.len()).len() != values.len() {
        mismatch(
            e,
            digits(cfg.weights(values.len()).len()) + " declustering weights vs "@ + digits(
                values.len(),
            ) + " data points"@,
        )
    } else {
        fit_refused(values, cfg.weights(values.len()), cfg.tails, e)
    }
}

/// `scores` are the normal scores of the values.
pub open spec fn all_scored<F: Fn(Op, Double, Double) -> Double>(
    ar: Arithmetic<F>,
    ns: NormalScore,
    values: Seq<Double>,
    scores: Seq<Double>,
) -> bool {
    scores.len() == values.len() && forall|i: int|
        0 <= i < scores.len() ==> ns.scored(ar, values[i], #[trigger] scores[i])
}

/// `out` is the field, mapped back to data units.
pub open spec fn all_mapped_back<F: Fn(Op, Double, Double) -> Double>(
    ar: Arithmetic<F>,
    ns: NormalScore,
    field: Seq<Double>,
    out: Seq<Double>,
) -> bool {
    out.len() == field.len() && forall|i: int|
        0 <= i < out.len() ==> ns.mapped_back(ar, field[i], #[trigger] out[i])
}

/// The transform of the data and their scores.
pub open spec fn prepared<F: Fn(Op, Double, Double) -> Double>(
    ar: Arithmetic<F>,
    ns: NormalScore,
    scores: Seq<Double>,
    values: Seq<Double>,
    cfg: SgsConfig,
) -> bool {
    &&& ns.well_formed()
    &&& ns.tail_options() == cfg.tails
    &&& fitted(ar, ns, values, cfg.weights(values.len()))
    &&& all_scored(ar, ns, values, scores)
}

/// All values are numbers.
pub open spec fn numbers(field: Seq<Double>) -> bool {
    forall|i: int| 0 <= i < field.len() ==> !(#[trigger] field[i]).nan()
}

/// One realization: the Gaussian field of its seed, which is made of numbers, in data
/// units.
pub open spec fn is_realization<const D: usize, F: Fn(Op, Double, Double) -> Double, G: Fn([Double; D]) -> Double>(
    stage: &Stage<D>,
    ar: &Arithmetic<F>,
    model: &Covariance<D, G>,
    levels: Option<Seq<u8>>,
    ns: NormalScore,
    scores: Seq<Double>,
    q: Quotas,
    seed: u64,
    out: Seq<Double>,
) -> bool {
    exists|field: Seq<Double>| #[trigger]
        is_field(stage, ar, model, levels, scores, q, seed, field) && numbers(field)
            && all_mapped_back(*ar, ns, field, out)
}

/// The field of a seed cannot be mapped back: one of its scores is NaN.
pub open spec fn score_missing<const D: usize, F: Fn(Op, Double, Double) -> Double, G: Fn([Double; D]) -> Double>(
    stage: &Stage<D>,
    ar: &Arithmetic<F>,
    model: &Covariance<D, G>,
    levels: Option<Seq<u8>>,
    scores: Seq<Double>,
    q: Quotas,
    seed: u64,
    e: GeostatError,
) -> bool {
    exists|field: Seq<Double>| #[trigger]
        is_field(stage, ar, model, levels, scores, q, seed, field) && !numbers(field) && invalid(
            e,
            "a simulated score is not a number"@,
        )
}

/// Why one realization fails: its field cannot be simulated, or not be mapped back.
pub open spec fn realization_fails<const D: usize, F: Fn(Op, Double, Double) -> Double, G: Fn([Double; D]) -> Double>(
    stage: &Stage<D>,
    ar: &Arithmetic<F>,
    model: &Covariance<D, G>,
    levels: Option<Seq<u8>>,
    scores: Seq<Double>,
    q: Quotas,
    seed: u64,
    e: GeostatError,
) -> bool {
    field_fails(stage, ar, model, levels, scores, q, seed, e) || score_missing(
        stage,
        ar,
        model,
        levels,
        scores,
        q,
        seed,
        e,
    )
}

/// What the realizations are, once the stage is set and the data are scored.
pub open spec fn realized<const D: usize, F: Fn(Op, Double, Double) -> Double, G: Fn([Double; D]) -> Double>(
    stage: &Stage<D>,
    ar: &Arithmetic<F>,
    model: &Covariance<D, G>,
    levels: Option<Seq<u8>>,
    ns: NormalScore,
    scores: Seq<Double>,
    cfg: SgsConfig,
    r: Result<Vec<Vec<Double>>, GeostatError>,
) -> bool {
    match r {
        Ok(v) => v@.len() == cfg.n_realizations && forall|i: int|
            0 <= i < v@.len() ==> is_realization(
                stage,
                ar,
                model,
                levels,
                ns,
                scores,
                cfg.quotas(),
                stream_seed(cfg.seed, i as nat),
                (#[trigger] v@[i])@,
            ),
        Err(e) => exists|i: nat|
            i < cfg.n_realizations && realization_fails(
                stage,
                ar,
                model,
                levels,
                scores,
                cfg.quotas(),
                #[trigger] stream_seed(cfg.seed, i),
                e,
            ),
    }
}

/// What a simulation gives.
pub open spec fn sgs_outcome<const D: usize, F: Fn(Op, Double, Double) -> Double, G: Fn([Double; D]) -> Double>(
    ar: &Arithmetic<F>,
    data: &PointSet<D>,
    model: &Covariance<D, G>,
    nodes: Seq<[Double; D]>,
    levels: Option<Seq<u8>>,
    cfg: SgsConfig,
    r: Result<Vec<Vec<Double>>, GeostatError>,
) -> bool {
    if !sgs_ok(data.attributes(), model.traits, nodes.len(), cfg) {
        r matches Err(e) && sgs_refused(
            data.attributes(),
            model.traits,
            D as nat,
            nodes.len(),
            cfg,
            e,
        )
    } else {
        exists|stage: Stage<D>, ns: NormalScore, scores: Seq<Double>|
            #![trigger stage.is_set(*ar, data.places(), nodes), prepared(*ar, ns, scores, data.attributes(), cfg)]
            stage.is_set(*ar, data.places(), nodes) && prepared(
                *ar,
                ns,
                scores,
                data.attributes(),
                cfg,
            ) && realized(&stage, ar, model, levels, ns, scores, cfg, r)
    }
}

/// The simulation runs to its end: cells can be laid out, systems held in
/// memory and normals drawn, and scores ascend with the values.
pub open spec fn sgs_runs<const D: usize, F: Fn(Op, Double, Double) -> Double>(
    ar: &Arithmetic<F>,
    data: &PointSet<D>,
    nodes: Seq<[Double; D]>,
    cfg: SgsConfig,
) -> bool {
    &&& can_lay_out(*ar, data.places(), nodes)
    &&& systems_fit(cfg.quotas(), data.places().len(), nodes.len())
    &&& forall|i: nat|
        i < cfg.n_realizations ==> lively(
            after_path(#[trigger] stream_seed(cfg.seed, i), nodes.len()),
        )
    &&& forall|ns: NormalScore| #[trigger]
        fitted(*ar, ns, data.attributes(), cfg.weights(data.attributes().len())) ==> ascends(
            ns.scores(),
        )
}

/// Maps a field back to data units, unless one of its scores is NaN.
fn map_back<F: Fn(Op, Double, Double) -> Double>(
    ns: &NormalScore,
    field: &Vec<Double>,
    ar: &Arithmetic<F>,
) -> (r: Result<Vec<Double>, GeostatError>)
    requires
        ns.well_formed(),
        ascends(ns.scores()),
        ar.total(),
    ensures
        match r {
            Ok(out) => numbers(field@) && all_mapped_back(*ar, *ns, field@, out@),
            Err(e) => !numbers(field@) && invalid(e, "a simulated score is not a number"@),
        },
{
    let mut out: Vec<Double> = Vec::new();
    for i in 0..field.len()
        invariant
            ns.well_formed(),
            ascends(ns.scores()),
            ar.total(),
            out.len() == i,
            forall|j: int| 0 <= j < i ==> !(#[trigger] field@[j]).nan(),
            forall|j: int| 0 <= j < i ==> ns.mapped_back(*ar, field@[j], #[trigger] out@[j]),
    {
        if field[i].is_nan() {
            assert(field@[i as int].nan());
            return Err(invalid_parameter("a simulated score is not a number"));
        }
        out.push(ns.back_transform(field[i], ar));
    }
    Ok(out)
}

/// What one realization can be simulated from.
pub open spec fn one_ready<const D: usize, F: Fn(Op, Double, Double) -> Double, G: Fn([Double; D]) -> Double>(
    stage: &Stage<D>,
    ar: &Arithmetic<F>,
    model: &Covariance<D, G>,
    levels: Option<&Vec<u8>>,
    ns: &NormalScore,
    scores: &Vec<Double>,
    q: Quotas,
    seed: u64,
) -> bool {
    &&& playable(stage, ar, model, levels, scores@.len(), q)
    &&& lively(after_path(seed, stage.nodes@.len()))
    &&& ns.well_formed()
    &&& ascends(ns.scores())
}

/// One realization of a seed.
fn simulate_one<const D: usize, F: Fn(Op, Double, Double) -> Double, G: Fn([Double; D]) -> Double>(
    stage: &Stage<D>,
    model: &Covariance<D, G>,
    levels: Option<&Vec<u8>>,
    ns: &NormalScore,
    scores: &Vec<Double>,
    q: Quotas,
    seed: u64,
    ar: &Arithmetic<F>,
) -> (r: Result<Vec<Double>, GeostatError>)
    requires
        one_ready(stage, ar, model, levels, ns, scores, q, seed),
    ensures
        match r {
            Ok(out) => is_realization(
                stage,
                ar,
                model,
                level_list(levels),
                *ns,
                scores@,
                q,
                seed,
                out@,
            ),
            Err(e) => realization_fails(stage, ar, model, level_list(levels), scores@, q, seed, e),
        },
{
    match simulate_gaussian_path(stage, model, levels, scores, q, seed, ar) {
        Err(e) => Err(e),
        Ok(field) => {
            assert(is_field(stage, ar, model, level_list(levels), scores@, q, seed, field@));
            map_back(ns, &field, ar)
        },
    }
}

/// Scores the data.
fn prepare<const D: usize, F: Fn(Op, Double, Double) -> Double>(
    data: &PointSet<D>,
    cfg: &SgsConfig,
    ar: &Arithmetic<F>,
) -> (r: Result<
    (NormalScore, Vec<Double>),
    GeostatError,
>)
    requires
        data.well_formed(),
        ar.total(),
    ensures
        ({
            let n = data.attributes().len();
            match r {
                Ok(p) => {
                    &&& cfg.weights(n).len() == n
                    &&& fit_ok(data.attributes(), cfg.weights(n), cfg.tails)
                    &&& prepared(*ar, p.0, p.1@, data.attributes(), *cfg)
                },
                Err(e) => if cfg.weights(n).len() != n {
                    mismatch(
                        e,
                        digits(cfg.weights(n).len()) + " declustering weights vs "@ + digits(n)
                            + " data points"@,
                    )
                } else {
                    &&& !fit_ok(data.attributes(), cfg.weights(n), cfg.tails)
                    &&& fit_refused(data.attributes(), cfg.weights(n), cfg.tails, e)
                },
            }
        }),
{
    let values: &Vec<Double> = data.values();
    let n_data: usize = values.len();
    let fit: Result<NormalScore, GeostatError> = match &cfg.decluster_weights {
        Some(w) => {
            if w.len() != n_data {
                return Err(
                    mismatched(
                        counts_text(w.len(), " declustering weights vs ", n_data, " data points"),
                    ),
                );
            }
            NormalScore::fit_weighted_with_tails(values, w, cfg.tails, ar)
        },
        None => NormalScore::fit_with_tails(values, cfg.tails, ar),
    };
    let ns: NormalScore = match fit {
        Err(e) => {
            return Err(e);
        },
        Ok(ns) => ns,
    };
    let mut scores: Vec<Double> = Vec::new();
    for i in 0..n_data
        invariant
            n_data == values.len(),
            values@ == data.attributes(),
            data.well_formed(),
            ns.well_formed(),
            ar.total(),
            scores.len() == i,
            forall|j: int| 0 <= j < i ==> ns.scored(*ar, values@[j], #[trigger] scores@[j]),
    {
        assert(values@[i as int].finite());
        scores.push(ns.transform(values[i], ar));
    }
    assert(prepared(*ar, ns, scores@, data.attributes(), *cfg));
    Ok((ns, scores))
}

/// Sequential Gaussian simulation at the nodes; `levels` are their multigrid
/// levels, if any.
pub fn sgs_at_with_levels<
    const D: usize,
    F: Fn(Op, Double, Double) -> Double + Sync,
    G: Fn([Double; D]) -> Double + Sync,
>(
    data: &PointSet<D>,
    model_ns: &Covariance<D, G>,
    nodes: &Vec<[Double; D]>,
    levels: Option<&Vec<u8>>,
    cfg: &SgsConfig,
    ar: &Arithmetic<F>,
) -> (r: Result<Vec<Vec<Double>>, GeostatError>)
    requires
        data.well_formed(),
        model_ns.total(),
        ar.total(),
        levels matches Some(ls) ==> ls@.len() == nodes@.len(),
        sgs_ok(data.attributes(), model_ns.traits, nodes@.len(), *cfg) ==> sgs_runs(
            ar,
            data,
            nodes@,
            *cfg,
        ),
    ensures
        sgs_outcome(ar, data, model_ns, nodes@, level_list(levels), *cfg, r),
{
    match check_gaussian(
        "SGS needs a valid covariance function and cannot use the unbounded Power model",
        &model_ns.traits,
        D,
        cfg.n_realizations,
        cfg.max_neighbors,
        cfg.search_radius,
        nodes.len(),
    ) {
        Err(e) => {
            return Err(e);
        },
        Ok(_) => {},
    }
    let (ns, scores): (NormalScore, Vec<Double>) = match prepare(data, cfg, ar) {
        Err(e) => {
            return Err(e);
        },
        Ok(p) => p,
    };
    let stage: Stage<D> = Stage::set(data.coords(), nodes, ar);
    let q: Quotas = Quotas {
        max_neighbors: cfg.max_neighbors,
        max_node_neighbors: cfg.max_node_neighbors,
        radius: cfg.search_radius,
    };
    let places: &Stage<D> = &stage;
    let transform: &NormalScore = &ns;
    let conditioning: &Vec<Double> = &scores;
    let one = |i: usize| -> (out: Result<Vec<Double>, GeostatError>)
        requires
            one_ready(
                places,
                ar,
                model_ns,
                levels,
                transform,
                conditioning,
                q,
                stream_seed(cfg.seed, i as nat),
            ),
        ensures
            match out {
                Ok(v) => is_realization(
                    places,
                    ar,
                    model_ns,
                    level_list(levels),
                    *transform,
                    conditioning@,
                    q,
                    stream_seed(cfg.seed, i as nat),
                    v@,
                ),
                Err(e) => realization_fails(
                    places,
                    ar,
                    model_ns,
                    level_list(levels),
                    conditioning@,
                    q,
                    stream_seed(cfg.seed, i as nat),
                    e,
                ),
            },
        {
            simulate_one(
                places,
                model_ns,
                levels,
                transform,
                conditioning,
                q,
                realization_seed(cfg.seed, i),
                ar,
            )
        };
    proof {
        assert(q == cfg.quotas());
        assert forall|i: usize| i < cfg.n_realizations implies #[trigger] call_requires(one, (i,)) by {
            let seed = stream_seed(cfg.seed, i as nat);
            assert(one_ready(
                places,
                ar,
                model_ns,
                levels,
                transform,
                conditioning,
                q,
                seed,
            ));
        }
    }
    let r: Result<Vec<Vec<Double>>, GeostatError> = par_try_map(cfg.n_realizations, one);
    proof {
        if r is Err {
            let e = r->Err_0;
            let i = choose|i: usize|
                i < cfg.n_realizations && #[trigger] call_ensures(one, (i,), Err(e));
            let k = i as nat;
            assert(realization_fails(
                places,
                ar,
                model_ns,
                level_list(levels),
                conditioning@,
                q,
                stream_seed(cfg.seed, k),
                e,
            ));
        }
        assert(realized(
            places,
            ar,
            model_ns,
            level_list(levels),
            *transform,
            conditioning@,
            *cfg,
            r,
        ));
        assert(stage.is_set(*ar, data.places(), nodes@));
        assert(prepared(*ar, ns, scores@, data.attributes(), *cfg));
    }
    r
}

/// Sequential Gaussian simulation at an arbitrary set of nodes. `multigrid` is
/// ignored here (it needs grid topology).
pub fn sgs_at<
    const D: usize,
    F: Fn(Op, Double, Double) -> Double + Sync,
    G: Fn([Double; D]) -> Double + Sync,
>(
    data: &PointSet<D>,
    model_ns: &Covariance<D, G>,
    nodes: &Vec<[Double; D]>,
    cfg: &SgsConfig,
    ar: &Arithmetic<F>,
) -> (r: Result<Vec<Vec<Double>>, GeostatError>)
    requires
        data.well_formed(),
        model_ns.total(),
        ar.total(),
        sgs_ok(data.attributes(), model_ns.traits, nodes@.len(), *cfg) ==> sgs_runs(
            ar,
            data,
            nodes@,
            *cfg,
        ),
    ensures
        sgs_outcome(ar, data, model_ns, nodes@, None, *cfg, r),
{
    sgs_at_with_levels(data, model_ns, nodes, None, cfg, ar)
}

/// The levels, as a sequence.
pub open spec fn level_values(levels: Option<Vec<u8>>) -> Option<Seq<u8>> {
    match levels {
        Some(v) => Some(v@),
        None => None,
    }
}

/// The realizations of a result.
pub open spec fn realizations_of(r: Result<SgsResult, GeostatError>) -> Result<
    Vec<Vec<Double>>,
    GeostatError,
> {
    match r {
        Ok(out) => Ok(out.realizations),
        Err(e) => Err(e),
    }
}

/// What a simulation on a 2-D grid gives: that at the cell centers, with the
/// multigrid levels of the cells.
pub open spec fn grid_outcome_2d<F: Fn(Op, Double, Double) -> Double, G: Fn([Double; 2]) -> Double>(
    ar: &Arithmetic<F>,
    data: &PointSet<2>,
    model: &Covariance<2, G>,
    grid: Grid2D,
    cfg: SgsConfig,
    r: Result<Vec<Vec<Double>>, GeostatError>,
) -> bool {
    exists|centers: Seq<[Double; 2]>, levels: Option<Vec<u8>>|
        #![trigger grid.are_centers(*ar, centers), levels_for_2d(levels, grid, cfg.multigrid)]
        grid.are_centers(*ar, centers) && levels_for_2d(levels, grid, cfg.multigrid)
            && sgs_outcome(ar, data, model, centers, level_values(levels), cfg, r)
}

/// The simulation on a 2-D grid runs to its end.
pub open spec fn grid_runs_2d<F: Fn(Op, Double, Double) -> Double, G: Fn([Double; 2]) -> Double>(
    ar: &Arithmetic<F>,
    data: &PointSet<2>,
    model: &Covariance<2, G>,
    grid: Grid2D,
    cfg: SgsConfig,
) -> bool {
    forall|centers: Seq<[Double; 2]>| #[trigger]
        grid.are_centers(*ar, centers) && sgs_ok(
            data.attributes(),
            model.traits,
            centers.len(),
            cfg,
        ) ==> sgs_runs(ar, data, centers, cfg)
}

/// Runs conditional sequential Gaussian simulation on a 2-D grid. The model is that
/// of the normal scores of the data.
pub fn sequential_gaussian_simulation<
    F: Fn(Op, Double, Double) -> Double + Sync,
    G: Fn([Double; 2]) -> Double + Sync,
>(
    data: &PointSet<2>,
    model_ns: &Covariance<2, G>,
    grid: &Grid2D,
    cfg: &SgsConfig,
    ar: &Arithmetic<F>,
) -> (r: Result<SgsResult, GeostatError>)
    requires
        data.well_formed(),
        model_ns.total(),
        ar.total(),
        cfg.multigrid < usize::BITS,
        grid.listable(),
        grid_runs_2d(ar, data, model_ns, *grid, *cfg),
    ensures
        r matches Ok(out) ==> out.grid == *grid,
        grid_outcome_2d(ar, data, model_ns, *grid, *cfg, realizations_of(r)),
{
    let centers: Vec<[Double; 2]> = grid.centers(ar);
    let levels: Option<Vec<u8>> = multigrid_2d(grid, cfg.multigrid);
    let list: Option<&Vec<u8>> = match &levels {
        Some(v) => Some(v),
        None => None,
    };
    assert(level_list(list) == level_values(levels));
    assert(grid.are_centers(*ar, centers@));
    assert(levels_for_2d(levels, *grid, cfg.multigrid));
    let r: Result<Vec<Vec<Double>>, GeostatError> = sgs_at_with_levels(
        data,
        model_ns,
        &centers,
        list,
        cfg,
        ar,
    );
    assert(grid_outcome_2d(ar, data, model_ns, *grid, *cfg, r));
    match r {
        Ok(realizations) => Ok(SgsResult { grid: *grid, realizations }),
        Err(e) => Err(e),
    }
}

/// What a simulation on a 3-D grid gives: that at the cell centers, with the
/// multigrid levels of the cells.
pub open spec fn grid_outcome_3d<F: Fn(Op, Double, Double) -> Double, G: Fn([Double; 3]) -> Double>(
    ar: &Arithmetic<F>,
    data: &PointSet<3>,
    model: &Covariance<3, G>,
    grid: Grid3D,
    cfg: SgsConfig,
    r: Result<Vec<Vec<Double>>, GeostatError>,
) -> bool {
    exists|centers: Seq<[Double; 3]>, levels: Option<Vec<u8>>|
        #![trigger grid.are_centers(*ar, centers), levels_for_3d(levels, grid, cfg.multigrid)]
        grid.are_centers(*ar, centers) && levels_for_3d(levels, grid, cfg.multigrid)
            && sgs_outcome(ar, data, model, centers, level_values(levels), cfg, r)
}

/// The simulation on a 3-D grid runs to its end.
pub open spec fn grid_runs_3d<F: Fn(Op, Double, Double) -> Double, G: Fn([Double; 3]) -> Double>(
    ar: &Arithmetic<F>,
    data: &PointSet<3>,
    model: &Covariance<3, G>,
    grid: Grid3D,
    cfg: SgsConfig,
) -> bool {
    forall|centers: Seq<[Double; 3]>| #[trigger]
        grid.are_centers(*ar, centers) && sgs_ok(
            data.attributes(),
            model.traits,
            centers.len(),
            cfg,
        ) ==> sgs_runs(ar, data, centers, cfg)
}

/// Runs conditional sequential Gaussian simulation on a 3-D grid,
/// returning the realizations in grid storage order. The model is that
/// of the normal scores of the data.
pub fn sequential_gaussian_simulation_3d<
    F: Fn(Op, Double, Double) -> Double + Sync,
    G: Fn([Double; 3]) -> Double + Sync,
>(
    data: &PointSet<3>,
    model_ns: &Covariance<3, G>,
    grid: &Grid3D,
    cfg: &SgsConfig,
    ar: &Arithmetic<F>,
) -> (r: Result<Vec<Vec<Double>>, GeostatError>)
    requires
        data.well_formed(),
        model_ns.total(),
        ar.total(),
        cfg.multigrid < usize::BITS,
        grid.listable(),
        grid.nx as nat * grid.ny as nat <= usize::MAX,
        grid_runs_3d(ar, data, model_ns, *grid, *cfg),
    ensures
        grid_outcome_3d(ar, data, model_ns, *grid, *cfg, r),
{
    let centers: Vec<[Double; 3]> = grid.centers(ar);
    let levels: Option<Vec<u8>> = multigrid_3d(grid, cfg.multigrid);
    let list: Option<&Vec<u8>> = match &levels {
        Some(v) => Some(v),
        None => None,
    };
    assert(level_list(list) == level_values(levels));
    assert(grid.are_centers(*ar, centers@));
    assert(levels_for_3d(levels, *grid, cfg.multigrid));
    let r: Result<Vec<Vec<Double>>, GeostatError> = sgs_at_with_levels(
        data,
        model_ns,
        &centers,
        list,
        cfg,
        ar,
    );
    assert(grid_outcome_3d(ar, data, model_ns, *grid, *cfg, r));
    r
}

/// Both runs give the same realizations, or both fail.
pub open spec fn same_runs(
    r1: Result<Vec<Vec<Double>>, GeostatError>,
    r2: Result<Vec<Vec<Double>>, GeostatError>,
) -> bool {
    match (r1, r2) {
        (Ok(v1), Ok(v2)) => v1@.len() == v2@.len() && forall|i: int|
            0 <= i < v1@.len() ==> (#[trigger] v1@[i])@ == v2@[i]@,
        (Err(_), Err(_)) => true,
        _ => false,
    }
}

proof fn lemma_same_preparation<F: Fn(Op, Double, Double) -> Double>(
    ar: Arithmetic<F>,
    ns1: NormalScore,
    scores1: Seq<Double>,
    ns2: NormalScore,
    scores2: Seq<Double>,
    values: Seq<Double>,
    cfg: SgsConfig,
)
    requires
        finite_values(values),
        prepared(ar, ns1, scores1, values, cfg),
        prepared(ar, ns2, scores2, values, cfg),
    ensures
        ns1.values() == ns2.values(),
        ns1.scores() == ns2.scores(),
        scores1 == scores2,
{
    fit_is_unique(ar, ns1, ns2, values, cfg.weights(values.len()));
    assert forall|i: int| 0 <= i < scores1.len() implies scores1[i] == scores2[i] by {
        assert(ns1.scored(ar, values[i], scores1[i]));
        assert(ns2.scored(ar, values[i], scores2[i]));
        lookup_is_unique(ar, ns1.values(), ns1.scores(), values[i], scores1[i], scores2[i]);
    }
    assert(scores1 =~= scores2);
}

/// A simulation is reproducible: data, model, nodes and configuration, the seed among
/// them, determine its realizations, whatever runs beside it.
pub proof fn same_seed_same_realizations<const D: usize, F: Fn(Op, Double, Double) -> Double, G: Fn([Double; D]) -> Double>(
    ar: &Arithmetic<F>,
    data: &PointSet<D>,
    model: &Covariance<D, G>,
    nodes: Seq<[Double; D]>,
    levels: Option<Seq<u8>>,
    cfg: SgsConfig,
    r1: Result<Vec<Vec<Double>>, GeostatError>,
    r2: Result<Vec<Vec<Double>>, GeostatError>,
)
    requires
        data.well_formed(),
        levels matches Some(ls) ==> ls.len() == nodes.len(),
        sgs_runs(ar, data, nodes, cfg),
        sgs_outcome(ar, data, model, nodes, levels, cfg, r1),
        sgs_outcome(ar, data, model, nodes, levels, cfg, r2),
    ensures
        same_runs(r1, r2),
{
    if sgs_ok(data.attributes(), model.traits, nodes.len(), cfg) {
        let values = data.attributes();
        let (t1, n1, s1) = choose|stage: Stage<D>, ns: NormalScore, scores: Seq<Double>|
            #![trigger stage.is_set(*ar, data.places(), nodes), prepared(*ar, ns, scores, data.attributes(), cfg)]
            stage.is_set(*ar, data.places(), nodes) && prepared(
                *ar,
                ns,
                scores,
                data.attributes(),
                cfg,
            ) && realized(&stage, ar, model, levels, ns, scores, cfg, r1);
        let (t2, n2, s2) = choose|stage: Stage<D>, ns: NormalScore, scores: Seq<Double>|
            #![trigger stage.is_set(*ar, data.places(), nodes), prepared(*ar, ns, scores, data.attributes(), cfg)]
            stage.is_set(*ar, data.places(), nodes) && prepared(
                *ar,
                ns,
                scores,
                data.attributes(),
                cfg,
            ) && realized(&stage, ar, model, levels, ns, scores, cfg, r2);
        lemma_same_preparation(*ar, n1, s1, n2, s2, values, cfg);
        lemma_same_realized(&t1, &t2, ar, model, nodes, levels, n1, n2, s1, cfg, r1, r2);
    }
}

proof fn lemma_same_realized<const D: usize, F: Fn(Op, Double, Double) -> Double, G: Fn([Double; D]) -> Double>(
    t1: &Stage<D>,
    t2: &Stage<D>,
    ar: &Arithmetic<F>,
    model: &Covariance<D, G>,
    nodes: Seq<[Double; D]>,
    levels: Option<Seq<u8>>,
    n1: NormalScore,
    n2: NormalScore,
    scores: Seq<Double>,
    cfg: SgsConfig,
    r1: Result<Vec<Vec<Double>>, GeostatError>,
    r2: Result<Vec<Vec<Double>>, GeostatError>,
)
    requires
        same_stage(*ar, t1, t2),
        t1.nodes@ == nodes,
        nodes.len() <= usize::MAX,
        levels matches Some(ls) ==> ls.len() == nodes.len(),
        n1.values() == n2.values(),
        n1.scores() == n2.scores(),
        n1.tail_options() == n2.tail_options(),
        ascends(n1.scores()),
        realized(t1, ar, model, levels, n1, scores, cfg, r1),
        realized(t2, ar, model, levels, n2, scores, cfg, r2),
    ensures
        same_runs(r1, r2),
{
    let q = cfg.quotas();
    if r1 is Ok && r2 is Ok {
        let v1 = r1->Ok_0@;
        let v2 = r2->Ok_0@;
        assert forall|i: int| 0 <= i < v1.len() implies (#[trigger] v1[i])@ == v2[i]@ by {
            let seed = stream_seed(cfg.seed, i as nat);
            assert(is_realization(t1, ar, model, levels, n1, scores, q, seed, v1[i]@));
            assert(is_realization(t2, ar, model, levels, n2, scores, q, seed, v2[i]@));
            lemma_same_realization(
                t1,
                t2,
                ar,
                model,
                nodes,
                levels,
                n1,
                n2,
                scores,
                q,
                seed,
                v1[i]@,
                v2[i]@,
            );
        }
    } else if r1 is Ok {
        lemma_no_failure(t1, t2, ar, model, levels, n1, scores, cfg, r1->Ok_0, r2->Err_0);
    } else if r2 is Ok {
        assert(same_stage(*ar, t2, t1));
        lemma_no_failure(t2, t1, ar, model, levels, n2, scores, cfg, r2->Ok_0, r1->Err_0);
    }
}

/// One seed gives one realization.
proof fn lemma_same_realization<const D: usize, F: Fn(Op, Double, Double) -> Double, G: Fn([Double; D]) -> Double>(
    t1: &Stage<D>,
    t2: &Stage<D>,
    ar: &Arithmetic<F>,
    model: &Covariance<D, G>,
    nodes: Seq<[Double; D]>,
    levels: Option<Seq<u8>>,
    n1: NormalScore,
    n2: NormalScore,
    scores: Seq<Double>,
    q: Quotas,
    seed: u64,
    o1: Seq<Double>,
    o2: Seq<Double>,
)
    requires
        same_stage(*ar, t1, t2),
        t1.nodes@ == nodes,
        nodes.len() <= usize::MAX,
        levels matches Some(ls) ==> ls.len() == nodes.len(),
        n1.values() == n2.values(),
        n1.scores() == n2.scores(),
        n1.tail_options() == n2.tail_options(),
        ascends(n1.scores()),
        is_realization(t1, ar, model, levels, n1, scores, q, seed, o1),
        is_realization(t2, ar, model, levels, n2, scores, q, seed, o2),
    ensures
        o1 == o2,
{
    let f1 = choose|field: Seq<Double>| #[trigger]
        is_field(t1, ar, model, levels, scores, q, seed, field) && numbers(field)
            && all_mapped_back(*ar, n1, field, o1);
    let f2 = choose|field: Seq<Double>| #[trigger]
        is_field(t2, ar, model, levels, scores, q, seed, field) && numbers(field)
            && all_mapped_back(*ar, n2, field, o2);
    field_is_unique(t1, t2, ar, model, levels, scores, q, seed, f1, f2);
    assert forall|j: int| 0 <= j < f1.len() implies o1[j] == o2[j] by {
        let (a, b) = (o1[j], o2[j]);
        assert(n1.mapped_back(*ar, f1[j], a));
        assert(n2.mapped_back(*ar, f1[j], b));
        if looked_up(*ar, n1.scores(), n1.values(), f1[j], a) && looked_up(
            *ar,
            n1.scores(),
            n1.values(),
            f1[j],
            b,
        ) {
            lookup_is_unique(*ar, n1.scores(), n1.values(), f1[j], a, b);
        }
    }
    assert(o1 =~= o2);
}

impl SgsConfig {
    /// The two configurations differ at most in the number of realizations and in
    /// the levels of the grid, for `n` data.
    pub open spec fn agrees(self, other: SgsConfig, n: nat) -> bool {
        &&& self.seed == other.seed
        &&& self.quotas() == other.quotas()
        &&& self.tails == other.tails
        &&& self.weights(n) == other.weights(n)
    }
}

/// The first realizations do not depend on how many are run: a run of more gives
/// the same ones first.
pub proof fn first_realizations_stay<const D: usize, F: Fn(Op, Double, Double) -> Double, G: Fn([Double; D]) -> Double>(
    ar: &Arithmetic<F>,
    data: &PointSet<D>,
    model: &Covariance<D, G>,
    nodes: Seq<[Double; D]>,
    levels: Option<Seq<u8>>,
    few: SgsConfig,
    many: SgsConfig,
    v1: Vec<Vec<Double>>,
    v2: Vec<Vec<Double>>,
)
    requires
        data.well_formed(),
        levels matches Some(ls) ==> ls.len() == nodes.len(),
        few.agrees(many, data.attributes().len()),
        few.n_realizations <= many.n_realizations,
        sgs_runs(ar, data, nodes, many),
        sgs_outcome(ar, data, model, nodes, levels, few, Ok(v1)),
        sgs_outcome(ar, data, model, nodes, levels, many, Ok(v2)),
    ensures
        v1@.len() == few.n_realizations,
        v2@.len() == many.n_realizations,
        forall|i: int| 0 <= i < v1@.len() ==> (#[trigger] v1@[i])@ == v2@[i]@,
{
    let values = data.attributes();
    let (t1, n1, s1) = choose|stage: Stage<D>, ns: NormalScore, scores: Seq<Double>|
        #![trigger stage.is_set(*ar, data.places(), nodes), prepared(*ar, ns, scores, data.attributes(), few)]
        stage.is_set(*ar, data.places(), nodes) && prepared(
            *ar,
            ns,
            scores,
            data.attributes(),
            few,
        ) && realized(&stage, ar, model, levels, ns, scores, few, Ok(v1));
    let (t2, n2, s2) = choose|stage: Stage<D>, ns: NormalScore, scores: Seq<Double>|
        #![trigger stage.is_set(*ar, data.places(), nodes), prepared(*ar, ns, scores, data.attributes(), many)]
        stage.is_set(*ar, data.places(), nodes) && prepared(
            *ar,
            ns,
            scores,
            data.attributes(),
            many,
        ) && realized(&stage, ar, model, levels, ns, scores, many, Ok(v2));
    assert(prepared(*ar, n1, s1, values, many));
    lemma_same_preparation(*ar, n1, s1, n2, s2, values, many);
    let q = many.quotas();
    assert forall|i: int| 0 <= i < v1@.len() implies (#[trigger] v1@[i])@ == v2@[i]@ by {
        let seed = stream_seed(many.seed, i as nat);
        assert(is_realization(&t1, ar, model, levels, n1, s1, q, seed, v1@[i]@));
        assert(is_realization(&t2, ar, model, levels, n2, s1, q, seed, v2@[i]@));
        lemma_same_realization(
            &t1,
            &t2,
            ar,
            model,
            nodes,
            levels,
            n1,
            n2,
            s1,
            q,
            seed,
            v1@[i]@,
            v2@[i]@,
        );
    }
}

/// Simulated values stay between the tail bounds, or in the range of the data where a
/// tail is clamped, for an arithmetic that keeps order.
pub proof fn realizations_stay_in_bounds<const D: usize, F: Fn(Op, Double, Double) -> Double, G: Fn([Double; D]) -> Double>(
    ar: &Arithmetic<F>,
    data: &PointSet<D>,
    model: &Covariance<D, G>,
    nodes: Seq<[Double; D]>,
    levels: Option<Seq<u8>>,
    cfg: SgsConfig,
    v: Vec<Vec<Double>>,
    lo: Double,
    hi: Double,
    i: int,
    j: int,
)
    requires
        data.well_formed(),
        keeps_order(*ar),
        sgs_runs(ar, data, nodes, cfg),
        forall|ns: NormalScore| #[trigger]
            fitted(*ar, ns, data.attributes(), cfg.weights(data.attributes().len()))
                ==> ns.places_scores(*ar),
        sgs_outcome(ar, data, model, nodes, levels, cfg, Ok(v)),
        if cfg.tails.lower == TailModel::Clamped {
            smallest(data.attributes(), lo)
        } else {
            cfg.tails.lower_bound == Some(lo)
        },
        if cfg.tails.upper == TailModel::Clamped {
            largest(data.attributes(), hi)
        } else {
            cfg.tails.upper_bound == Some(hi)
        },
        0 <= i < v@.len(),
        0 <= j < v@[i]@.len(),
    ensures
        lo.at_most(v@[i]@[j]),
        v@[i]@[j].at_most(hi),
{
    let values = data.attributes();
    let (t, ns, scores) = choose|stage: Stage<D>, ns: NormalScore, scores: Seq<Double>|
        #![trigger stage.is_set(*ar, data.places(), nodes), prepared(*ar, ns, scores, data.attributes(), cfg)]
        stage.is_set(*ar, data.places(), nodes) && prepared(
            *ar,
            ns,
            scores,
            data.attributes(),
            cfg,
        ) && realized(&stage, ar, model, levels, ns, scores, cfg, Ok(v));
    let q = cfg.quotas();
    let seed = stream_seed(cfg.seed, i as nat);
    assert(is_realization(&t, ar, model, levels, ns, scores, q, seed, v@[i]@));
    let field = choose|field: Seq<Double>| #[trigger]
        is_field(&t, ar, model, levels, scores, q, seed, field) && numbers(field)
            && all_mapped_back(*ar, ns, field, v@[i]@);
    assert(!field[j].nan());
    let z = v@[i]@[j];
    assert(ns.mapped_back(*ar, field[j], z));
    ns.mapped_back_stays_in_bounds(*ar, field[j], z);
    fitted_ends(*ar, ns, values, cfg.weights(values.len()), lo, hi);
}

proof fn lemma_no_failure<const D: usize, F: Fn(Op, Double, Double) -> Double, G: Fn([Double; D]) -> Double>(
    t1: &Stage<D>,
    t2: &Stage<D>,
    ar: &Arithmetic<F>,
    model: &Covariance<D, G>,
    levels: Option<Seq<u8>>,
    ns: NormalScore,
    scores: Seq<Double>,
    cfg: SgsConfig,
    v: Vec<Vec<Double>>,
    e: GeostatError,
)
    requires
        same_stage(*ar, t1, t2),
        t1.nodes@.len() <= usize::MAX,
        levels matches Some(ls) ==> ls.len() == t1.nodes@.len(),
        realized(t1, ar, model, levels, ns, scores, cfg, Ok(v)),
    ensures
        forall|i: nat|
            i < cfg.n_realizations ==> !realization_fails(
                t2,
                ar,
                model,
                levels,
                scores,
                cfg.quotas(),
                #[trigger] stream_seed(cfg.seed, i),
                e,
            ),
{
    let q = cfg.quotas();
    assert forall|i: nat| i < cfg.n_realizations implies !realization_fails(
        t2,
        ar,
        model,
        levels,
        scores,
        q,
        #[trigger] stream_seed(cfg.seed, i),
        e,
    ) by {
        let seed = stream_seed(cfg.seed, i);
        assert(is_realization(t1, ar, model, levels, ns, scores, q, seed, v@[i as int]@));
        let f = choose|field: Seq<Double>| #[trigger]
            is_field(t1, ar, model, levels, scores, q, seed, field) && numbers(field)
                && all_mapped_back(*ar, ns, field, v@[i as int]@);
        field_excludes_failure(t1, t2, ar, model, levels, scores, q, seed, f, e);
        if score_missing(t2, ar, model, levels, scores, q, seed, e) {
            let g = choose|field: Seq<Double>| #[trigger]
                is_field(t2, ar, model, levels, scores, q, seed, field) && !numbers(field);
            field_is_unique(t1, t2, ar, model, levels, scores, q, seed, f, g);
        }
    }
}

/// A simulation on a 2-D grid is reproducible.
pub proof fn same_seed_same_grid_2d<F: Fn(Op, Double, Double) -> Double, G: Fn([Double; 2]) -> Double>(
    ar: &Arithmetic<F>,
    data: &PointSet<2>,
    model: &Covariance<2, G>,
    grid: Grid2D,
    cfg: SgsConfig,
    r1: Result<Vec<Vec<Double>>, GeostatError>,
    r2: Result<Vec<Vec<Double>>, GeostatError>,
)
    requires
        data.well_formed(),
        grid_runs_2d(ar, data, model, grid, cfg),
        grid_outcome_2d(ar, data, model, grid, cfg, r1),
        grid_outcome_2d(ar, data, model, grid, cfg, r2),
    ensures
        same_runs(r1, r2),
{
    let (c1, l1) = choose|centers: Seq<[Double; 2]>, levels: Option<Vec<u8>>|
        #![trigger grid.are_centers(*ar, centers), levels_for_2d(levels, grid, cfg.multigrid)]
        grid.are_centers(*ar, centers) && levels_for_2d(levels, grid, cfg.multigrid)
            && sgs_outcome(ar, data, model, centers, level_values(levels), cfg, r1);
    let (c2, l2) = choose|centers: Seq<[Double; 2]>, levels: Option<Vec<u8>>|
        #![trigger grid.are_centers(*ar, centers), levels_for_2d(levels, grid, cfg.multigrid)]
        grid.are_centers(*ar, centers) && levels_for_2d(levels, grid, cfg.multigrid)
            && sgs_outcome(ar, data, model, centers, level_values(levels), cfg, r2);
    grid.centers_are_unique(*ar, c1, c2);
    levels_are_unique_2d(l1, l2, grid, cfg.multigrid);
    if sgs_ok(data.attributes(), model.traits, c1.len(), cfg) {
        same_seed_same_realizations(ar, data, model, c1, level_values(l1), cfg, r1, r2);
    }
}

/// A simulation on a 3-D grid is reproducible.
pub proof fn same_seed_same_grid_3d<F: Fn(Op, Double, Double) -> Double, G: Fn([Double; 3]) -> Double>(
    ar: &Arithmetic<F>,
    data: &PointSet<3>,
    model: &Covariance<3, G>,
    grid: Grid3D,
    cfg: SgsConfig,
    r1: Result<Vec<Vec<Double>>, GeostatError>,
    r2: Result<Vec<Vec<Double>>, GeostatError>,
)
    requires
        data.well_formed(),
        grid_runs_3d(ar, data, model, grid, cfg),
        grid_outcome_3d(ar, data, model, grid, cfg, r1),
        grid_outcome_3d(ar, data, model, grid, cfg, r2),
    ensures
        same_runs(r1, r2),
{
    let (c1, l1) = choose|centers: Seq<[Double; 3]>, levels: Option<Vec<u8>>|
        #![trigger grid.are_centers(*ar, centers), levels_for_3d(levels, grid, cfg.multigrid)]
        grid.are_centers(*ar, centers) && levels_for_3d(levels, grid, cfg.multigrid)
            && sgs_outcome(ar, data, model, centers, level_values(levels), cfg, r1);
    let (c2, l2) = choose|centers: Seq<[Double; 3]>, levels: Option<Vec<u8>>|
        #![trigger grid.are_centers(*ar, centers), levels_for_3d(levels, grid, cfg.multigrid)]
        grid.are_centers(*ar, centers) && levels_for_3d(levels, grid, cfg.multigrid)
            && sgs_outcome(ar, data, model, centers, level_values(levels), cfg, r2);
    grid.centers_are_unique(*ar, c1, c2);
    levels_are_unique_3d(l1, l2, grid, cfg.multigrid);
    if sgs_ok(data.attributes(), model.traits, c1.len(), cfg) {
        same_seed_same_realizations(ar, data, model, c1, level_values(l1), cfg, r1, r2);
    }
}

} // verus!

//! Sequential indicator simulation: the local distribution at each node of a
//! random path comes from indicator kriging at the cutoffs, its order relations
//! are corrected, and the value is drawn from it with interpolation within
//! classes and tails to the tail bounds.

use vstd::prelude::*;

use crate::arith::{Arithmetic, Op};
use crate::bucket_grid::BucketGrid;
use crate::ccdf::{
    are_bounds, climb, cutoffs_ok, draw_is_unique, drawn, draws_stay_in_bounds, in_unit, is_rising,
    ladder_outcome, models_text, rises, sample_ccdf, weight_list, wrong_models, Classes, Ladder,
};
use crate::covariance::Covariance;
use crate::data::PointSet;
use crate::double::{Double, HIDDEN};
use crate::error::{invalid, invalid_of, invalid_parameter, mismatch, GeostatError};
use crate::grid::{Grid2D, Grid3D};
use crate::indicator::{lemma_same_local, near_ok, one_model_serves_all_cutoffs, Cutoffs};
use crate::model::{check_radius, invalid_kind, kind_text, radius_ok};
use crate::parallel::par_try_map;
use crate::rng::{are_uniforms, realization_seed, stream_seed, Rng, Words};
use crate::sgs::{realizations_of, same_runs, SgsResult};
use crate::simple::as_list;
use crate::simulation::{
    is_path, level_list, levels_are_unique_2d, levels_are_unique_3d, levels_for_2d, levels_for_3d,
    multigrid_2d, multigrid_3d, path_is_a_permutation, path_is_unique, simulation_path,
};
use crate::stage::{
    after_path, can_lay_out, lemma_path_visits_all, play_excludes_failure, play_is_unique, plays,
    same_stage, stumbles, systems_fit, Stage,
};
use crate::tails::{keeps_order, TailModel};
use crate::walk::{decides, step_input, visits_all, walk_by, Quotas, Scene, Step};

verus! {

/// Configuration for sequential indicator simulation.
#[non_exhaustive]
pub struct SisConfig<const D: usize, G> {
    /// Indicator cutoffs, strictly ascending, inside the data value range.
    pub cutoffs: Vec<Double>,
    /// Indicator variogram models: one per cutoff, or a single one shared by
    /// all cutoffs.
    pub models: Vec<Covariance<D, G>>,
    /// Ordinary indicator kriging instead of simple indicator kriging.
    pub ordinary: bool,
    /// Number of realizations.
    pub n_realizations: usize,
    /// Base seed.
    pub seed: u64,
    /// Maximum conditioning points per node.
    pub max_neighbors: usize,
    /// Optional search radius.
    pub search_radius: Option<Double>,
    /// Lower tail bound (default: data minimum).
    pub tail_min: Option<Double>,
    /// Upper tail bound (default: data maximum).
    pub tail_max: Option<Double>,
    /// Lower-tail interpolation between `tail_min` and the first cutoff.
    pub lower_tail: TailModel,
    /// Upper-tail interpolation between the last cutoff and `tail_max`.
    pub upper_tail: TailModel,
    /// Optional declustering weights, one per data point: the global
    /// proportions are weighted by them.
    pub decluster_weights: Option<Vec<Double>>,
    /// Separate quota for previously simulated nodes.
    pub max_node_neighbors: Option<usize>,
    /// Multiple-grid levels (grid entry points only).
    pub multigrid: u8,
}

impl<const D: usize, G> Default for SisConfig<D, G> {
    fn default() -> (c: SisConfig<D, G>)
        ensures
            c.cutoffs@.len() == 0,
            c.models@.len() == 0,
            !c.ordinary,
            c.n_realizations == 1,
            c.seed == 42,
            c.max_neighbors == 16,
            c.search_radius is None,
            c.tail_min is None,
            c.tail_max is None,
            c.lower_tail == TailModel::Linear,
            c.upper_tail == TailModel::Linear,
            c.decluster_weights is None,
            c.max_node_neighbors is None,
            c.multigrid == 0,
    {
        SisConfig {
            cutoffs: Vec::new(),
            models: Vec::new(),
            ordinary: false,
            n_realizations: 1,
            seed: 42,
            max_neighbors: 16,
            search_radius: None,
            tail_min: None,
            tail_max: None,
            lower_tail: TailModel::Linear,
            upper_tail: TailModel::Linear,
            decluster_weights: None,
            max_node_neighbors: None,
            multigrid: 0,
        }
    }
}

/// Some model has no covariance function.
pub open spec fn some_power<const D: usize, G>(models: Seq<Covariance<D, G>>) -> bool {
    exists|i: int| 0 <= i < models.len() && (#[trigger] models[i]).traits.has_power
}

/// Some model has a structure that is not valid in this dimension.
pub open spec fn some_invalid<const D: usize, G>(models: Seq<Covariance<D, G>>) -> bool {
    exists|i: int| 0 <= i < models.len() && (#[trigger] models[i]).traits.invalid_kind is Some
}

/// Model `i` is the first with an invalid structure.
pub open spec fn first_invalid<const D: usize, G>(models: Seq<Covariance<D, G>>, i: int) -> bool {
    0 <= i < models.len() && models[i].traits.invalid_kind is Some && forall|j: int|
        0 <= j < i ==> (#[trigger] models[j]).traits.invalid_kind is None
}

fn any_power<const D: usize, G>(models: &Vec<Covariance<D, G>>) -> (b: bool)
    ensures
        b == some_power(models@),
{
    for i in 0..models.len()
        invariant
            forall|j: int| 0 <= j < i ==> !(#[trigger] models@[j]).traits.has_power,
    {
        if models[i].traits.has_power {
            assert(models@[i as int].traits.has_power);
            return true;
        }
    }
    false
}

fn find_invalid<const D: usize, G>(models: &Vec<Covariance<D, G>>) -> (r: Option<usize>)
    ensures
        r is None <==> !some_invalid(models@),
        r matches Some(i) ==> first_invalid(models@, i as int),
{
    for i in 0..models.len()
        invariant
            forall|j: int| 0 <= j < i ==> (#[trigger] models@[j]).traits.invalid_kind is None,
    {
        if models[i].traits.invalid_kind.is_some() {
            assert(models@[i as int].traits.invalid_kind is Some);
            return Some(i);
        }
    }
    None
}

/// The configuration is in order, apart from what depends on the data.
pub open spec fn sis_config_ok<const D: usize, G>(cfg: SisConfig<D, G>) -> bool {
    &&& cutoffs_ok(cfg.cutoffs@, cfg.models@.len())
    &&& !some_power(cfg.models@)
    &&& !some_invalid(cfg.models@)
    &&& cfg.n_realizations > 0
    &&& cfg.max_neighbors > 0
    &&& radius_ok(cfg.search_radius)
}

/// Why it is not: the first check that fails.
pub open spec fn sis_config_refused<const D: usize, G>(cfg: SisConfig<D, G>, e: GeostatError) -> bool {
    if cfg.cutoffs@.len() == 0 {
        invalid(e, "at least one cutoff required"@)
    } else if !rises(cfg.cutoffs@) {
        invalid(e, "cutoffs must be strictly ascending"@)
    } else if !cutoffs_ok(cfg.cutoffs@, cfg.models@.len()) {
        mismatch(e, models_text(cfg.models@.len(), cfg.cutoffs@.len()))
    } else if some_power(cfg.models@) {
        invalid(
            e,
            "SIS needs a valid indicator covariance function and cannot use the unbounded Power model"@,
        )
    } else if some_invalid(cfg.models@) {
        exists|i: int| #[trigger]
            first_invalid(cfg.models@, i) && invalid(
                e,
                kind_text(cfg.models@[i].traits.invalid_kind->0@, D as nat),
            )
    } else if cfg.n_realizations == 0 || cfg.max_neighbors == 0 {
        invalid(e, "n_realizations and max_neighbors must be at least 1"@)
    } else {
        invalid_of(e, "search radius must be positive, got {}"@, seq![cfg.search_radius->0])
    }
}

impl<const D: usize, G> SisConfig<D, G> {
    /// Checks what does not depend on the data.
    pub fn check(&self) -> (r: Result<(), GeostatError>)
        ensures
            r is Ok <==> sis_config_ok(*self),
            r matches Err(e) ==> sis_config_refused(*self, e),
    {
        let nc: usize = self.cutoffs.len();
        if nc == 0 {
            return Err(invalid_parameter("at least one cutoff required"));
        }
        if !is_rising(&self.cutoffs) {
            return Err(invalid_parameter("cutoffs must be strictly ascending"));
        }
        if self.models.len() != nc && self.models.len() != 1 {
            return Err(wrong_models(self.models.len(), nc));
        }
        if any_power(&self.models) {
            return Err(
                invalid_parameter(
                    "SIS needs a valid indicator covariance function and cannot use the unbounded Power model",
                ),
            );
        }
        if let Some(i) = find_invalid(&self.models) {
            if let Some(kind) = &self.models[i].traits.invalid_kind {
                assert(first_invalid(self.models@, i as int));
                return Err(invalid_kind(kind, D));
            }
        }
        if self.n_realizations == 0 || self.max_neighbors == 0 {
            return Err(invalid_parameter("n_realizations and max_neighbors must be at least 1"));
        }
        check_radius(self.search_radius)
    }

    /// Search limits.
    pub open spec fn quotas(self) -> Quotas {
        Quotas {
            max_neighbors: self.max_neighbors,
            max_node_neighbors: self.max_node_neighbors,
            radius: self.search_radius,
        }
    }
}

/// Models, cutoffs, tails and the order of a simulation.
pub struct Script<'a, const D: usize, G> {
    /// Cutoffs, proportions and models.
    pub cutoffs: Cutoffs<'a, D, G>,
    /// Cutoffs and tails to draw from.
    pub classes: Classes<'a>,
    /// Multigrid levels, if any.
    pub levels: Option<&'a Vec<u8>>,
    /// Search limits.
    pub quotas: Quotas,
}

/// What a step gives: a draw from the local distribution.
pub open spec fn sis_step<const D: usize, F: Fn(Op, Double, Double) -> Double, G: Fn([Double; D]) -> Double>(
    stage: &Stage<D>,
    ar: &Arithmetic<F>,
    script: &Script<D, G>,
    node: usize,
    places: Seq<usize>,
    values: Seq<Double>,
    u: Double,
    r: Result<Double, GeostatError>,
) -> bool {
    exists|ccdf: Result<Seq<Double>, GeostatError>| #[trigger]
        script.cutoffs.local_outcome(
            *ar,
            stage.all@,
            places,
            values,
            stage.nodes@[node as int]@,
            ccdf,
        ) && match ccdf {
            Err(e) => r == Err::<Double, GeostatError>(e),
            Ok(c) => r matches Ok(z) && drawn(*ar, c, script.classes, u, z),
        }
}

/// The steps of the walk.
pub open spec fn sis_steps<const D: usize, F: Fn(Op, Double, Double) -> Double, G: Fn([Double; D]) -> Double>(
    stage: &Stage<D>,
    ar: &Arithmetic<F>,
    script: &Script<D, G>,
) -> Step {
    |
        node: usize,
        places: Seq<usize>,
        values: Seq<Double>,
        u: Double,
        r: Result<Double, GeostatError>,
    | sis_step(stage, ar, script, node, places, values, u, r)
}

/// A step can be asked for.
pub open spec fn sis_ready<const D: usize, F: Fn(Op, Double, Double) -> Double, G: Fn([Double; D]) -> Double>(
    stage: &Stage<D>,
    ar: &Arithmetic<F>,
    script: &Script<D, G>,
    most: nat,
) -> bool {
    &&& ar.total()
    &&& script.cutoffs.well_formed()
    &&& script.classes.cutoffs@ == script.cutoffs.values@
    &&& !(script.classes.lower_tail is Hyperbolic)
    &&& stage.all@ == stage.data@ + stage.nodes@
    &&& crate::matrix::holdable(most + 1, most + 1)
    &&& most < usize::MAX
}

fn take_step<const D: usize, F: Fn(Op, Double, Double) -> Double, G: Fn([Double; D]) -> Double>(
    stage: &Stage<D>,
    ar: &Arithmetic<F>,
    script: &Script<D, G>,
    node: usize,
    places: &Vec<usize>,
    values: &Vec<Double>,
    u: Double,
    Ghost(most): Ghost<nat>,
) -> (r: Result<Double, GeostatError>)
    requires
        sis_ready(stage, ar, script, most),
        step_input(places@, values@, node, stage.data@.len(), stage.nodes@.len(), most),
    ensures
        sis_step(stage, ar, script, node, places@, values@, u, r),
{
    let target: [Double; D] = stage.nodes[node];
    proof {
        crate::kriging::lemma_holdable(places@.len() + 1, most + 1);
        assert(near_ok(places@, stage.all@.len()));
    }
    let ccdf: Result<Vec<Double>, GeostatError> = script.cutoffs.local_ccdf(
        &stage.all,
        places,
        values,
        &target,
        ar,
    );
    assert(script.cutoffs.local_outcome(
        *ar,
        stage.all@,
        places@,
        values@,
        target@,
        as_list(ccdf),
    ));
    match ccdf {
        Err(e) => Err(e),
        Ok(c) => Ok(sample_ccdf(&c, &script.classes, u, ar)),
    }
}

/// The path and the draws of a seed.
pub open spec fn sis_cast(
    seed: u64,
    n: nat,
    levels: Option<Seq<u8>>,
    path: Seq<usize>,
    us: Seq<Double>,
) -> bool {
    &&& is_path(path, Words::seeded(seed), n, levels)
    &&& are_uniforms(us, after_path(seed, n), n)
}

/// `sim` is the realization of a seed: uniform draws of a generator that has
/// drawn the path, from the local distributions along the path.
pub open spec fn is_realization<const D: usize, F: Fn(Op, Double, Double) -> Double, G: Fn([Double; D]) -> Double>(
    stage: &Stage<D>,
    ar: &Arithmetic<F>,
    script: &Script<D, G>,
    data_values: Seq<Double>,
    seed: u64,
    sim: Seq<Double>,
) -> bool {
    exists|path: Seq<usize>, us: Seq<Double>, grid: BucketGrid<D>|
        #![trigger sis_cast(seed, stage.nodes@.len(), level_list(script.levels), path, us), plays(stage, ar, grid, sis_steps(stage, ar, script), path, us, data_values, script.quotas, sim)]
        sis_cast(seed, stage.nodes@.len(), level_list(script.levels), path, us) && plays(
            stage,
            ar,
            grid,
            sis_steps(stage, ar, script),
            path,
            us,
            data_values,
            script.quotas,
            sim,
        )
}

/// The walk of this seed fails with `e`.
pub open spec fn realization_fails<const D: usize, F: Fn(Op, Double, Double) -> Double, G: Fn([Double; D]) -> Double>(
    stage: &Stage<D>,
    ar: &Arithmetic<F>,
    script: &Script<D, G>,
    data_values: Seq<Double>,
    seed: u64,
    e: GeostatError,
) -> bool {
    exists|path: Seq<usize>, us: Seq<Double>, grid: BucketGrid<D>|
        #![trigger sis_cast(seed, stage.nodes@.len(), level_list(script.levels), path, us), stumbles(stage, ar, grid, sis_steps(stage, ar, script), path, us, data_values, script.quotas, e)]
        sis_cast(seed, stage.nodes@.len(), level_list(script.levels), path, us) && stumbles(
            stage,
            ar,
            grid,
            sis_steps(stage, ar, script),
            path,
            us,
            data_values,
            script.quotas,
            e,
        )
}

/// A realization can be simulated.
pub open spec fn one_ready<const D: usize, F: Fn(Op, Double, Double) -> Double, G: Fn([Double; D]) -> Double>(
    stage: &Stage<D>,
    ar: &Arithmetic<F>,
    script: &Script<D, G>,
    n_data: nat,
) -> bool {
    &&& can_lay_out(*ar, stage.data@, stage.nodes@)
    &&& stage.is_set(*ar, stage.data@, stage.nodes@)
    &&& n_data == stage.data@.len()
    &&& script.levels matches Some(ls) ==> ls@.len() == stage.nodes@.len()
    &&& sis_ready(stage, ar, script, script.quotas.most(n_data, stage.nodes@.len()))
}

/// Walks a path with the steps of an indicator simulation.
fn walk_indicators<const D: usize, F: Fn(Op, Double, Double) -> Double, G: Fn([Double; D]) -> Double>(
    stage: &Stage<D>,
    script: &Script<D, G>,
    data_values: &Vec<Double>,
    path: &Vec<usize>,
    us: &Vec<Double>,
    ar: &Arithmetic<F>,
) -> (out: (Ghost<BucketGrid<D>>, Result<Vec<Double>, GeostatError>))
    requires
        one_ready(stage, ar, script, data_values@.len()),
        visits_all(path@, stage.nodes@.len()),
        us@.len() == path@.len(),
    ensures
        match out.1 {
            Ok(sim) => plays(
                stage,
                ar,
                out.0@,
                sis_steps(stage, ar, script),
                path@,
                us@,
                data_values@,
                script.quotas,
                sim@,
            ),
            Err(e) => stumbles(
                stage,
                ar,
                out.0@,
                sis_steps(stage, ar, script),
                path@,
                us@,
                data_values@,
                script.quotas,
                e,
            ),
        },
{
    let q: Quotas = script.quotas;
    let grid: BucketGrid<D> = stage.node_store(ar);
    let ghost empty = grid;
    let ghost most = q.most(data_values@.len(), stage.nodes@.len());
    let step = |node: usize, p: &Vec<usize>, v: &Vec<Double>, u: Double| -> (out: Result<
        Double,
        GeostatError,
    >)
        requires
            sis_ready(stage, ar, script, most),
            step_input(p@, v@, node, stage.data@.len(), stage.nodes@.len(), most),
        ensures
            sis_step(stage, ar, script, node, p@, v@, u, out),
        { take_step(stage, ar, script, node, p, v, u, Ghost(most)) };
    let scene: Scene<D, F> = Scene {
        data: &stage.data,
        nodes: &stage.nodes,
        data_grid: &stage.grid,
        ar,
    };
    let ghost steps = sis_steps(stage, ar, script);
    let r: Result<Vec<Double>, GeostatError> = walk_by(
        &scene,
        grid,
        data_values,
        path,
        us,
        q,
        &step,
        Ghost(steps),
    );
    proof {
        assert(scene == stage.scene(ar));
        if r is Ok {
            assert(plays(stage, ar, empty, steps, path@, us@, data_values@, q, r->Ok_0@));
        } else {
            assert(stumbles(stage, ar, empty, steps, path@, us@, data_values@, q, r->Err_0));
        }
    }
    (Ghost(empty), r)
}

/// One realization of a seed.
fn simulate_one<const D: usize, F: Fn(Op, Double, Double) -> Double, G: Fn([Double; D]) -> Double>(
    stage: &Stage<D>,
    script: &Script<D, G>,
    data_values: &Vec<Double>,
    seed: u64,
    ar: &Arithmetic<F>,
) -> (r: Result<Vec<Double>, GeostatError>)
    requires
        one_ready(stage, ar, script, data_values@.len()),
    ensures
        match r {
            Ok(sim) => is_realization(stage, ar, script, data_values@, seed, sim@),
            Err(e) => realization_fails(stage, ar, script, data_values@, seed, e),
        },
{
    let mut rng: Rng = Rng::new(seed);
    let n: usize = stage.nodes.len();
    let path: Vec<usize> = simulation_path(&mut rng, n, script.levels);
    proof {
        lemma_path_visits_all(path@, n as nat);
    }
    let us: Vec<Double> = rng.uniforms(n);
    assert(sis_cast(seed, n as nat, level_list(script.levels), path@, us@));
    let (grid, r): (Ghost<BucketGrid<D>>, Result<Vec<Double>, GeostatError>) = walk_indicators(
        stage,
        script,
        data_values,
        &path,
        &us,
        ar,
    );
    proof {
        let steps = sis_steps(stage, ar, script);
        if r is Ok {
            assert(plays(
                stage,
                ar,
                grid@,
                steps,
                path@,
                us@,
                data_values@,
                script.quotas,
                r->Ok_0@,
            ));
        } else {
            assert(stumbles(
                stage,
                ar,
                grid@,
                steps,
                path@,
                us@,
                data_values@,
                script.quotas,
                r->Err_0,
            ));
        }
    }
    r
}

/// What the realizations are.
pub open spec fn realized<const D: usize, F: Fn(Op, Double, Double) -> Double, G: Fn([Double; D]) -> Double>(
    stage: &Stage<D>,
    ar: &Arithmetic<F>,
    script: &Script<D, G>,
    data_values: Seq<Double>,
    n_realizations: usize,
    seed: u64,
    r: Result<Vec<Vec<Double>>, GeostatError>,
) -> bool {
    match r {
        Ok(v) => v@.len() == n_realizations && forall|i: int|
            0 <= i < v@.len() ==> is_realization(
                stage,
                ar,
                script,
                data_values,
                stream_seed(seed, i as nat),
                (#[trigger] v@[i])@,
            ),
        Err(e) => exists|i: nat|
            i < n_realizations && realization_fails(
                stage,
                ar,
                script,
                data_values,
                #[trigger] stream_seed(seed, i),
                e,
            ),
    }
}

/// The script of a configuration and a ladder.
pub open spec fn script_of<'a, const D: usize, G>(
    cfg: &'a SisConfig<D, G>,
    ladder: &'a Ladder,
    levels: Option<&'a Vec<u8>>,
) -> Script<'a, D, G> {
    Script {
        cutoffs: Cutoffs {
            values: &cfg.cutoffs,
            props: &ladder.props,
            models: &cfg.models,
            ordinary: cfg.ordinary,
        },
        classes: Classes {
            cutoffs: &cfg.cutoffs,
            tail_min: ladder.tail_min,
            tail_max: ladder.tail_max,
            lower_tail: cfg.lower_tail,
            upper_tail: cfg.upper_tail,
        },
        levels,
        quotas: cfg.quotas(),
    }
}

/// The ladder of a configuration.
pub open spec fn ladder_for<const D: usize, F: Fn(Op, Double, Double) -> Double, G>(
    ar: Arithmetic<F>,
    values: Seq<Double>,
    cfg: SisConfig<D, G>,
    r: Result<Ladder, GeostatError>,
) -> bool {
    ladder_outcome(
        ar,
        values,
        weight_list(cfg.decluster_weights),
        cfg.cutoffs@,
        cfg.tail_min,
        cfg.tail_max,
        cfg.lower_tail,
        cfg.upper_tail,
        r,
    )
}

/// What a simulation gives.
pub open spec fn sis_outcome<const D: usize, F: Fn(Op, Double, Double) -> Double, G: Fn([Double; D]) -> Double>(
    ar: &Arithmetic<F>,
    data: &PointSet<D>,
    nodes: Seq<[Double; D]>,
    levels: Option<&Vec<u8>>,
    cfg: &SisConfig<D, G>,
    r: Result<Vec<Vec<Double>>, GeostatError>,
) -> bool {
    if !sis_config_ok(*cfg) {
        r matches Err(e) && sis_config_refused(*cfg, e)
    } else {
        exists|ladder: Result<Ladder, GeostatError>| #[trigger]
            ladder_for(*ar, data.attributes(), *cfg, ladder) && match ladder {
                Err(e) => r == Err::<Vec<Vec<Double>>, GeostatError>(e),
                Ok(l) => if nodes.len() == 0 {
                    r matches Err(e) && invalid(e, "no simulation nodes given"@)
                } else {
                    exists|stage: Stage<D>| #[trigger]
                        stage.is_set(*ar, data.places(), nodes) && realized(
                            &stage,
                            ar,
                            &script_of(cfg, &l, levels),
                            data.attributes(),
                            cfg.n_realizations,
                            cfg.seed,
                            r,
                        )
                },
            }
    }
}

/// The simulation runs to its end: cells can be laid out and systems held in
/// memory.
pub open spec fn sis_runs<const D: usize, F: Fn(Op, Double, Double) -> Double, G>(
    ar: &Arithmetic<F>,
    data: &PointSet<D>,
    nodes: Seq<[Double; D]>,
    cfg: &SisConfig<D, G>,
) -> bool {
    &&& can_lay_out(*ar, data.places(), nodes)
    &&& systems_fit(cfg.quotas(), data.places().len(), nodes.len())
    &&& cfg.quotas().most(data.places().len(), nodes.len()) < usize::MAX
}

/// All models can be computed.
pub open spec fn all_total<const D: usize, G: Fn([Double; D]) -> Double>(
    models: Seq<Covariance<D, G>>,
) -> bool {
    forall|k: int| 0 <= k < models.len() ==> (#[trigger] models[k]).total()
}

/// Sequential indicator simulation at the nodes; `levels` are their multigrid
/// levels, if any.
pub fn sis_at_with_levels<
    const D: usize,
    F: Fn(Op, Double, Double) -> Double + Sync,
    G: Fn([Double; D]) -> Double + Sync,
>(
    data: &PointSet<D>,
    nodes: &Vec<[Double; D]>,
    levels: Option<&Vec<u8>>,
    cfg: &SisConfig<D, G>,
    ar: &Arithmetic<F>,
) -> (r: Result<Vec<Vec<Double>>, GeostatError>)
    requires
        data.well_formed(),
        data.attributes().len() < 2 * HIDDEN,
        all_total(cfg.models@),
        ar.total(),
        levels matches Some(ls) ==> ls@.len() == nodes@.len(),
        sis_config_ok(*cfg) && nodes@.len() > 0 ==> sis_runs(ar, data, nodes@, cfg),
    ensures
        sis_outcome(ar, data, nodes@, levels, cfg, r),
{
    match cfg.check() {
        Err(e) => {
            return Err(e);
        },
        Ok(_) => {},
    }
    let values: &Vec<Double> = data.values();
    proof {
        assert forall|i: int| 0 <= i < values.len() implies !(#[trigger] values@[i]).nan() by {
            assert(values@[i].finite());
        }
    }
    let climbed: Result<Ladder, GeostatError> = climb(
        values,
        &cfg.decluster_weights,
        &cfg.cutoffs,
        cfg.tail_min,
        cfg.tail_max,
        cfg.lower_tail,
        cfg.upper_tail,
        ar,
    );
    assert(ladder_for(*ar, data.attributes(), *cfg, climbed));
    let ladder: Ladder = match climbed {
        Err(e) => {
            return Err(e);
        },
        Ok(l) => l,
    };
    if nodes.len() == 0 {
        return Err(invalid_parameter("no simulation nodes given"));
    }
    let stage: Stage<D> = Stage::set(data.coords(), nodes, ar);
    let script: Script<D, G> = Script {
        cutoffs: Cutoffs {
            values: &cfg.cutoffs,
            props: &ladder.props,
            models: &cfg.models,
            ordinary: cfg.ordinary,
        },
        classes: Classes {
            cutoffs: &cfg.cutoffs,
            tail_min: ladder.tail_min,
            tail_max: ladder.tail_max,
            lower_tail: cfg.lower_tail,
            upper_tail: cfg.upper_tail,
        },
        levels,
        quotas: Quotas {
            max_neighbors: cfg.max_neighbors,
            max_node_neighbors: cfg.max_node_neighbors,
            radius: cfg.search_radius,
        },
    };
    assert(script == script_of(cfg, &ladder, levels));
    let r: Result<Vec<Vec<Double>>, GeostatError> = run_all(
        &stage,
        &script,
        values,
        cfg.n_realizations,
        cfg.seed,
        ar,
    );
    assert(stage.is_set(*ar, data.places(), nodes@));
    r
}

/// All realizations, in parallel.
fn run_all<
    const D: usize,
    F: Fn(Op, Double, Double) -> Double + Sync,
    G: Fn([Double; D]) -> Double + Sync,
>(
    stage: &Stage<D>,
    script: &Script<D, G>,
    values: &Vec<Double>,
    n_realizations: usize,
    seed: u64,
    ar: &Arithmetic<F>,
) -> (r: Result<Vec<Vec<Double>>, GeostatError>)
    requires
        one_ready(stage, ar, script, values@.len()),
    ensures
        realized(stage, ar, script, values@, n_realizations, seed, r),
{
    let one = |i: usize| -> (out: Result<Vec<Double>, GeostatError>)
        requires
            one_ready(stage, ar, script, values@.len()),
        ensures
            match out {
                Ok(sim) => is_realization(
                    stage,
                    ar,
                    script,
                    values@,
                    stream_seed(seed, i as nat),
                    sim@,
                ),
                Err(e) => realization_fails(
                    stage,
                    ar,
                    script,
                    values@,
                    stream_seed(seed, i as nat),
                    e,
                ),
            },
        { simulate_one(stage, script, values, realization_seed(seed, i), ar) };
    let r: Result<Vec<Vec<Double>>, GeostatError> = par_try_map(n_realizations, one);
    proof {
        if r is Err {
            let e = r->Err_0;
            let i = choose|i: usize|
                i < n_realizations && #[trigger] call_ensures(one, (i,), Err(e));
            let k = i as nat;
            assert(realization_fails(stage, ar, script, values@, stream_seed(seed, k), e));
        }
    }
    r
}

/// Sequential indicator simulation at an arbitrary set of nodes. `multigrid` is
/// ignored here (it needs grid topology).
pub fn sis_at<
    const D: usize,
    F: Fn(Op, Double, Double) -> Double + Sync,
    G: Fn([Double; D]) -> Double + Sync,
>(
    data: &PointSet<D>,
    nodes: &Vec<[Double; D]>,
    cfg: &SisConfig<D, G>,
    ar: &Arithmetic<F>,
) -> (r: Result<Vec<Vec<Double>>, GeostatError>)
    requires
        data.well_formed(),
        data.attributes().len() < 2 * HIDDEN,
        all_total(cfg.models@),
        ar.total(),
        sis_config_ok(*cfg) && nodes@.len() > 0 ==> sis_runs(ar, data, nodes@, cfg),
    ensures
        sis_outcome(ar, data, nodes@, None, cfg, r),
{
    sis_at_with_levels(data, nodes, None, cfg, ar)
}

/// A reference to the levels, where there are any.
pub open spec fn level_ref<'a>(levels: &'a Option<Vec<u8>>) -> Option<&'a Vec<u8>> {
    match levels {
        Some(v) => Some(v),
        None => None,
    }
}

/// What a simulation on a 2-D grid gives: that at the cell centers, with the
/// multigrid levels of the cells.
pub open spec fn grid_outcome_2d<F: Fn(Op, Double, Double) -> Double, G: Fn([Double; 2]) -> Double>(
    ar: &Arithmetic<F>,
    data: &PointSet<2>,
    grid: Grid2D,
    cfg: &SisConfig<2, G>,
    r: Result<Vec<Vec<Double>>, GeostatError>,
) -> bool {
    exists|centers: Seq<[Double; 2]>, levels: Option<Vec<u8>>|
        #![trigger grid.are_centers(*ar, centers), levels_for_2d(levels, grid, cfg.multigrid)]
        grid.are_centers(*ar, centers) && levels_for_2d(levels, grid, cfg.multigrid)
            && sis_outcome(ar, data, centers, level_ref(&levels), cfg, r)
}

/// The simulation on a 2-D grid runs to its end.
pub open spec fn grid_runs_2d<F: Fn(Op, Double, Double) -> Double, G: Fn([Double; 2]) -> Double>(
    ar: &Arithmetic<F>,
    data: &PointSet<2>,
    grid: Grid2D,
    cfg: &SisConfig<2, G>,
) -> bool {
    forall|centers: Seq<[Double; 2]>| #[trigger]
        grid.are_centers(*ar, centers) && sis_config_ok(*cfg) && centers.len() > 0 ==> sis_runs(
            ar,
            data,
            centers,
            cfg,
        )
}

/// Runs conditional sequential indicator simulation on a 2-D grid.
pub fn sequential_indicator_simulation<
    F: Fn(Op, Double, Double) -> Double + Sync,
    G: Fn([Double; 2]) -> Double + Sync,
>(
    data: &PointSet<2>,
    grid: &Grid2D,
    cfg: &SisConfig<2, G>,
    ar: &Arithmetic<F>,
) -> (r: Result<SgsResult, GeostatError>)
    requires
        data.well_formed(),
        data.attributes().len() < 2 * HIDDEN,
        all_total(cfg.models@),
        ar.total(),
        cfg.multigrid < usize::BITS,
        grid.listable(),
        grid_runs_2d(ar, data, *grid, cfg),
    ensures
        r matches Ok(out) ==> out.grid == *grid,
        grid_outcome_2d(ar, data, *grid, cfg, realizations_of(r)),
{
    let centers: Vec<[Double; 2]> = grid.centers(ar);
    let levels: Option<Vec<u8>> = multigrid_2d(grid, cfg.multigrid);
    let list: Option<&Vec<u8>> = match &levels {
        Some(v) => Some(v),
        None => None,
    };
    assert(list == level_ref(&levels));
    assert(grid.are_centers(*ar, centers@));
    assert(levels_for_2d(levels, *grid, cfg.multigrid));
    let r: Result<Vec<Vec<Double>>, GeostatError> = sis_at_with_levels(
        data,
        &centers,
        list,
        cfg,
        ar,
    );
    assert(grid_outcome_2d(ar, data, *grid, cfg, r));
    match r {
        Ok(realizations) => Ok(SgsResult { grid: *grid, realizations }),
        Err(e) => Err(e),
    }
}

/// What a simulation on a 3-D grid gives: that at the cell centers, with the
/// multigrid levels of the cells.
pub open spec fn grid_outcome_3d<F: Fn(Op, Double, Double) -> Double, G: Fn([Double; 3]) -> Double>(
    ar: &Arithmetic<F>,
    data: &PointSet<3>,
    grid: Grid3D,
    cfg: &SisConfig<3, G>,
    r: Result<Vec<Vec<Double>>, GeostatError>,
) -> bool {
    exists|centers: Seq<[Double; 3]>, levels: Option<Vec<u8>>|
        #![trigger grid.are_centers(*ar, centers), levels_for_3d(levels, grid, cfg.multigrid)]
        grid.are_centers(*ar, centers) && levels_for_3d(levels, grid, cfg.multigrid)
            && sis_outcome(ar, data, centers, level_ref(&levels), cfg, r)
}

/// The simulation on a 3-D grid runs to its end.
pub open spec fn grid_runs_3d<F: Fn(Op, Double, Double) -> Double, G: Fn([Double; 3]) -> Double>(
    ar: &Arithmetic<F>,
    data: &PointSet<3>,
    grid: Grid3D,
    cfg: &SisConfig<3, G>,
) -> bool {
    forall|centers: Seq<[Double; 3]>| #[trigger]
        grid.are_centers(*ar, centers) && sis_config_ok(*cfg) && centers.len() > 0 ==> sis_runs(
            ar,
            data,
            centers,
            cfg,
        )
}

/// Runs conditional sequential indicator simulation on a 3-D grid,
/// returning the realizations in grid storage order.
pub fn sequential_indicator_simulation_3d<
    F: Fn(Op, Double, Double) -> Double + Sync,
    G: Fn([Double; 3]) -> Double + Sync,
>(
    data: &PointSet<3>,
    grid: &Grid3D,
    cfg: &SisConfig<3, G>,
    ar: &Arithmetic<F>,
) -> (r: Result<Vec<Vec<Double>>, GeostatError>)
    requires
        data.well_formed(),
        data.attributes().len() < 2 * HIDDEN,
        all_total(cfg.models@),
        ar.total(),
        cfg.multigrid < usize::BITS,
        grid.listable(),
        grid.nx as nat * grid.ny as nat <= usize::MAX,
        grid_runs_3d(ar, data, *grid, cfg),
    ensures
        grid_outcome_3d(ar, data, *grid, cfg, r),
{
    let centers: Vec<[Double; 3]> = grid.centers(ar);
    let levels: Option<Vec<u8>> = multigrid_3d(grid, cfg.multigrid);
    let list: Option<&Vec<u8>> = match &levels {
        Some(v) => Some(v),
        None => None,
    };
    assert(list == level_ref(&levels));
    assert(grid.are_centers(*ar, centers@));
    assert(levels_for_3d(levels, *grid, cfg.multigrid));
    let r: Result<Vec<Vec<Double>>, GeostatError> = sis_at_with_levels(
        data,
        &centers,
        list,
        cfg,
        ar,
    );
    assert(grid_outcome_3d(ar, data, *grid, cfg, r));
    r
}

/// The classes are the same.
pub open spec fn same_classes(a: Classes, b: Classes) -> bool {
    &&& a.cutoffs@ == b.cutoffs@
    &&& a.tail_min == b.tail_min
    &&& a.tail_max == b.tail_max
    &&& a.lower_tail == b.lower_tail
    &&& a.upper_tail == b.upper_tail
}

/// The scripts say the same: they give the same local distributions, draw from them
/// alike and go the same way.
pub open spec fn alike<'a, 'b, const D: usize, F: Fn(Op, Double, Double) -> Double, G: Fn([Double; D]) -> Double>(
    ar: Arithmetic<F>,
    a: Script<'a, D, G>,
    b: Script<'b, D, G>,
) -> bool {
    &&& forall|
        places: Seq<[Double; D]>,
        nb: Seq<usize>,
        values: Seq<Double>,
        target: Seq<Double>,
        r: Result<Seq<Double>, GeostatError>,
    |
        #![trigger a.cutoffs.local_outcome(ar, places, nb, values, target, r)]
        #![trigger b.cutoffs.local_outcome(ar, places, nb, values, target, r)]
        a.cutoffs.local_outcome(ar, places, nb, values, target, r) == b.cutoffs.local_outcome(
            ar,
            places,
            nb,
            values,
            target,
            r,
        )
    &&& same_classes(a.classes, b.classes)
    &&& level_list(a.levels) == level_list(b.levels)
    &&& a.quotas == b.quotas
}

proof fn lemma_same_step<const D: usize, F: Fn(Op, Double, Double) -> Double, G: Fn([Double; D]) -> Double>(
    ta: &Stage<D>,
    tb: &Stage<D>,
    ar: &Arithmetic<F>,
    a: &Script<D, G>,
    b: &Script<D, G>,
    node: usize,
    places: Seq<usize>,
    values: Seq<Double>,
    u: Double,
    r: Result<Double, GeostatError>,
)
    requires
        ta.all@ == tb.all@,
        ta.nodes@ == tb.nodes@,
        alike(*ar, *a, *b),
        sis_step(ta, ar, a, node, places, values, u, r),
    ensures
        sis_step(tb, ar, b, node, places, values, u, r),
{
    let target = ta.nodes@[node as int]@;
    let ccdf = choose|ccdf: Result<Seq<Double>, GeostatError>| #[trigger]
        a.cutoffs.local_outcome(*ar, ta.all@, places, values, target, ccdf) && match ccdf {
            Err(e) => r == Err::<Double, GeostatError>(e),
            Ok(c) => r matches Ok(z) && drawn(*ar, c, a.classes, u, z),
        };
    assert(b.cutoffs.local_outcome(*ar, tb.all@, places, values, target, ccdf));
}

proof fn lemma_same_steps<const D: usize, F: Fn(Op, Double, Double) -> Double, G: Fn([Double; D]) -> Double>(
    ta: &Stage<D>,
    tb: &Stage<D>,
    ar: &Arithmetic<F>,
    a: &Script<D, G>,
    b: &Script<D, G>,
)
    requires
        ta.all@ == tb.all@,
        ta.nodes@ == tb.nodes@,
        alike(*ar, *a, *b),
    ensures
        sis_steps(ta, ar, a) == sis_steps(tb, ar, b),
{
    let sa = sis_steps(ta, ar, a);
    let sb = sis_steps(tb, ar, b);
    assert forall|
        node: usize,
        places: Seq<usize>,
        values: Seq<Double>,
        u: Double,
        r: Result<Double, GeostatError>,
    | #[trigger]
        sa(node, places, values, u, r) == #[trigger] sb(node, places, values, u, r) by {
        if sis_step(ta, ar, a, node, places, values, u, r) {
            lemma_same_step(ta, tb, ar, a, b, node, places, values, u, r);
        }
        if sis_step(tb, ar, b, node, places, values, u, r) {
            lemma_same_step(tb, ta, ar, b, a, node, places, values, u, r);
        }
    }
    assert(sa =~= sb);
}

proof fn lemma_sis_decides<const D: usize, F: Fn(Op, Double, Double) -> Double, G: Fn([Double; D]) -> Double>(
    stage: &Stage<D>,
    ar: &Arithmetic<F>,
    script: &Script<D, G>,
)
    ensures
        decides(sis_steps(stage, ar, script)),
{
    let steps = sis_steps(stage, ar, script);
    assert forall|
        node: usize,
        places: Seq<usize>,
        values: Seq<Double>,
        draw: Double,
        z: Double,
        r: Result<Double, GeostatError>,
    |
        #![trigger steps(node, places, values, draw, Ok(z)), steps(node, places, values, draw, r)]
        steps(node, places, values, draw, Ok(z)) && steps(node, places, values, draw, r) implies r
        == Ok::<Double, GeostatError>(z) by {
        let ok: Result<Double, GeostatError> = Ok(z);
        assert(sis_step(stage, ar, script, node, places, values, draw, ok));
        assert(sis_step(stage, ar, script, node, places, values, draw, r));
        let target = stage.nodes@[node as int]@;
        let c1 = choose|ccdf: Result<Seq<Double>, GeostatError>| #[trigger]
            script.cutoffs.local_outcome(*ar, stage.all@, places, values, target, ccdf)
                && match ccdf {
                Err(e) => ok == Err::<Double, GeostatError>(e),
                Ok(c) => ok matches Ok(z) && drawn(*ar, c, script.classes, draw, z),
            };
        let c2 = choose|ccdf: Result<Seq<Double>, GeostatError>| #[trigger]
            script.cutoffs.local_outcome(*ar, stage.all@, places, values, target, ccdf)
                && match ccdf {
                Err(e) => r == Err::<Double, GeostatError>(e),
                Ok(c) => r matches Ok(z) && drawn(*ar, c, script.classes, draw, z),
            };
        script.cutoffs.local_is_unique(
            *ar,
            stage.all@,
            places,
            values,
            target,
            c1->Ok_0,
            c2,
        );
        draw_is_unique(*ar, c1->Ok_0, script.classes, draw, z, r->Ok_0);
    }
}

proof fn lemma_cast_is_unique(
    seed: u64,
    n: nat,
    levels: Option<Seq<u8>>,
    p1: Seq<usize>,
    u1: Seq<Double>,
    p2: Seq<usize>,
    u2: Seq<Double>,
)
    requires
        sis_cast(seed, n, levels, p1, u1),
        sis_cast(seed, n, levels, p2, u2),
    ensures
        p1 == p2,
        u1 == u2,
{
    path_is_unique(p1, p2, Words::seeded(seed), n, levels);
    let w = after_path(seed, n);
    assert forall|i: int| 0 <= i < n implies u1[i] == u2[i] by {
        Double::exact_is_unique(u1[i], u2[i], (w.after(i as nat).output() >> 11) as nat, 1022);
    }
    assert(u1 =~= u2);
}

/// A seed makes one realization.
proof fn lemma_realization_is_unique<const D: usize, F: Fn(Op, Double, Double) -> Double, G: Fn([Double; D]) -> Double>(
    ta: &Stage<D>,
    tb: &Stage<D>,
    ar: &Arithmetic<F>,
    a: &Script<D, G>,
    b: &Script<D, G>,
    data_values: Seq<Double>,
    seed: u64,
    sim1: Seq<Double>,
    sim2: Seq<Double>,
)
    requires
        same_stage(*ar, ta, tb),
        alike(*ar, *a, *b),
        ta.nodes@.len() <= usize::MAX,
        level_list(a.levels) matches Some(ls) ==> ls.len() == ta.nodes@.len(),
        is_realization(ta, ar, a, data_values, seed, sim1),
        is_realization(tb, ar, b, data_values, seed, sim2),
    ensures
        sim1 == sim2,
{
    let n = ta.nodes@.len();
    let levels = level_list(a.levels);
    let q = a.quotas;
    let steps = sis_steps(ta, ar, a);
    lemma_same_steps(ta, tb, ar, a, b);
    lemma_sis_decides(ta, ar, a);
    let (p1, u1, g1) = choose|path: Seq<usize>, us: Seq<Double>, grid: BucketGrid<D>|
        #![trigger sis_cast(seed, n, levels, path, us), plays(ta, ar, grid, steps, path, us, data_values, q, sim1)]
        sis_cast(seed, n, levels, path, us) && plays(
            ta,
            ar,
            grid,
            steps,
            path,
            us,
            data_values,
            q,
            sim1,
        );
    let (p2, u2, g2) = choose|path: Seq<usize>, us: Seq<Double>, grid: BucketGrid<D>|
        #![trigger sis_cast(seed, n, levels, path, us), plays(tb, ar, grid, steps, path, us, data_values, q, sim2)]
        sis_cast(seed, n, levels, path, us) && plays(
            tb,
            ar,
            grid,
            steps,
            path,
            us,
            data_values,
            q,
            sim2,
        );
    lemma_cast_is_unique(seed, n, levels, p1, u1, p2, u2);
    path_is_a_permutation(p1, Words::seeded(seed), n, levels);
    crate::simulation::lemma_same_multiset_members(p1, n);
    play_is_unique(ta, tb, ar, g1, g2, steps, p1, u1, data_values, q, sim1, sim2);
}

proof fn lemma_realization_excludes_failure<const D: usize, F: Fn(Op, Double, Double) -> Double, G: Fn([Double; D]) -> Double>(
    ta: &Stage<D>,
    tb: &Stage<D>,
    ar: &Arithmetic<F>,
    a: &Script<D, G>,
    b: &Script<D, G>,
    data_values: Seq<Double>,
    seed: u64,
    sim: Seq<Double>,
    e: GeostatError,
)
    requires
        same_stage(*ar, ta, tb),
        alike(*ar, *a, *b),
        is_realization(ta, ar, a, data_values, seed, sim),
    ensures
        !realization_fails(tb, ar, b, data_values, seed, e),
{
    if realization_fails(tb, ar, b, data_values, seed, e) {
        let n = ta.nodes@.len();
        let levels = level_list(a.levels);
        let q = a.quotas;
        let steps = sis_steps(ta, ar, a);
        lemma_same_steps(ta, tb, ar, a, b);
        lemma_sis_decides(ta, ar, a);
        let (p1, u1, g1) = choose|path: Seq<usize>, us: Seq<Double>, grid: BucketGrid<D>|
            #![trigger sis_cast(seed, n, levels, path, us), plays(ta, ar, grid, steps, path, us, data_values, q, sim)]
            sis_cast(seed, n, levels, path, us) && plays(
                ta,
                ar,
                grid,
                steps,
                path,
                us,
                data_values,
                q,
                sim,
            );
        let (p2, u2, g2) = choose|path: Seq<usize>, us: Seq<Double>, grid: BucketGrid<D>|
            #![trigger sis_cast(seed, n, levels, path, us), stumbles(tb, ar, grid, steps, path, us, data_values, q, e)]
            sis_cast(seed, n, levels, path, us) && stumbles(
                tb,
                ar,
                grid,
                steps,
                path,
                us,
                data_values,
                q,
                e,
            );
        lemma_cast_is_unique(seed, n, levels, p1, u1, p2, u2);
        play_excludes_failure(ta, tb, ar, g1, g2, steps, p1, u1, data_values, q, sim, e);
    }
}

proof fn lemma_same_realized<const D: usize, F: Fn(Op, Double, Double) -> Double, G: Fn([Double; D]) -> Double>(
    ta: &Stage<D>,
    tb: &Stage<D>,
    ar: &Arithmetic<F>,
    a: &Script<D, G>,
    b: &Script<D, G>,
    data_values: Seq<Double>,
    n_realizations: usize,
    seed: u64,
    r1: Result<Vec<Vec<Double>>, GeostatError>,
    r2: Result<Vec<Vec<Double>>, GeostatError>,
)
    requires
        same_stage(*ar, ta, tb),
        alike(*ar, *a, *b),
        ta.nodes@.len() <= usize::MAX,
        level_list(a.levels) matches Some(ls) ==> ls.len() == ta.nodes@.len(),
        realized(ta, ar, a, data_values, n_realizations, seed, r1),
        realized(tb, ar, b, data_values, n_realizations, seed, r2),
    ensures
        same_runs(r1, r2),
{
    if r1 is Ok && r2 is Ok {
        let v1 = r1->Ok_0@;
        let v2 = r2->Ok_0@;
        assert forall|i: int| 0 <= i < v1.len() implies (#[trigger] v1[i])@ == v2[i]@ by {
            let s = stream_seed(seed, i as nat);
            assert(is_realization(ta, ar, a, data_values, s, v1[i]@));
            assert(is_realization(tb, ar, b, data_values, s, v2[i]@));
            lemma_realization_is_unique(ta, tb, ar, a, b, data_values, s, v1[i]@, v2[i]@);
        }
    } else if r1 is Ok {
        let e = r2->Err_0;
        let i = choose|i: nat|
            i < n_realizations && realization_fails(
                tb,
                ar,
                b,
                data_values,
                #[trigger] stream_seed(seed, i),
                e,
            );
        let s = stream_seed(seed, i);
        let sim = r1->Ok_0@[i as int]@;
        assert(is_realization(ta, ar, a, data_values, s, sim));
        lemma_realization_excludes_failure(ta, tb, ar, a, b, data_values, s, sim, e);
    } else if r2 is Ok {
        let e = r1->Err_0;
        let i = choose|i: nat|
            i < n_realizations && realization_fails(
                ta,
                ar,
                a,
                data_values,
                #[trigger] stream_seed(seed, i),
                e,
            );
        let s = stream_seed(seed, i);
        let sim = r2->Ok_0@[i as int]@;
        assert(is_realization(tb, ar, b, data_values, s, sim));
        assert(same_stage(*ar, tb, ta));
        lemma_realization_excludes_failure(tb, ta, ar, b, a, data_values, s, sim, e);
    }
}

/// The configurations differ at most in their models, in the number of realizations
/// and in the levels of the grid.
pub open spec fn same_course<const D: usize, G>(a: SisConfig<D, G>, b: SisConfig<D, G>) -> bool {
    &&& a.cutoffs@ == b.cutoffs@
    &&& a.seed == b.seed
    &&& a.quotas() == b.quotas()
    &&& weight_list(a.decluster_weights) == weight_list(b.decluster_weights)
    &&& a.tail_min == b.tail_min
    &&& a.tail_max == b.tail_max
    &&& a.lower_tail == b.lower_tail
    &&& a.upper_tail == b.upper_tail
    &&& a.ordinary == b.ordinary
}

/// The one model of `one` is the model that `each` has for every cutoff.
pub open spec fn shares_model<const D: usize, G: Fn([Double; D]) -> Double>(
    one: SisConfig<D, G>,
    each: SisConfig<D, G>,
) -> bool {
    &&& one.models@.len() == 1
    &&& one.models@[0].total()
    &&& each.models@.len() == each.cutoffs@.len()
    &&& forall|k: int| 0 <= k < each.models@.len() ==> #[trigger] each.models@[k] == one.models@[0]
}

/// The configurations have the same models, or one model serves in place of equal
/// ones.
pub open spec fn same_models<const D: usize, G: Fn([Double; D]) -> Double>(
    a: SisConfig<D, G>,
    b: SisConfig<D, G>,
) -> bool {
    a.models@ == b.models@ || shares_model(a, b)
}

proof fn lemma_same_check<const D: usize, G: Fn([Double; D]) -> Double>(
    a: SisConfig<D, G>,
    b: SisConfig<D, G>,
)
    requires
        same_course(a, b),
        same_models(a, b),
        a.n_realizations > 0 <==> b.n_realizations > 0,
    ensures
        sis_config_ok(a) <==> sis_config_ok(b),
{
    assert(a.quotas().max_neighbors == b.quotas().max_neighbors);
    assert(a.quotas().radius == b.quotas().radius);
    if shares_model(a, b) && b.models@.len() > 0 {
        assert(b.models@[0] == a.models@[0]);
        if some_power(b.models@) {
            let i = choose|i: int| 0 <= i < b.models@.len() && (#[trigger] b.models@[i]).traits.has_power;
            assert(a.models@[0].traits.has_power);
        }
        if some_invalid(b.models@) {
            let i = choose|i: int|
                0 <= i < b.models@.len() && (#[trigger] b.models@[i]).traits.invalid_kind is Some;
            assert(a.models@[0].traits.invalid_kind is Some);
        }
        if some_power(a.models@) {
            assert(b.models@[0].traits.has_power);
        }
        if some_invalid(a.models@) {
            assert(b.models@[0].traits.invalid_kind is Some);
        }
    }
}

proof fn lemma_alike<const D: usize, F: Fn(Op, Double, Double) -> Double, G: Fn([Double; D]) -> Double>(
    ar: Arithmetic<F>,
    values: Seq<Double>,
    c1: &SisConfig<D, G>,
    c2: &SisConfig<D, G>,
    l1: &Ladder,
    l2: &Ladder,
    levels1: Option<&Vec<u8>>,
    levels2: Option<&Vec<u8>>,
)
    requires
        same_course(*c1, *c2),
        same_models(*c1, *c2),
        sis_config_ok(*c1),
        level_list(levels1) == level_list(levels2),
        ladder_for(ar, values, *c1, Ok(*l1)),
        ladder_for(ar, values, *c2, Ok(*l2)),
    ensures
        alike(ar, script_of(c1, l1, levels1), script_of(c2, l2, levels2)),
{
    let a = script_of(c1, l1, levels1);
    let b = script_of(c2, l2, levels2);
    assert(a.cutoffs.props@ == b.cutoffs.props@);
    assert(a.cutoffs.props@.len() == c1.cutoffs@.len());
    assert forall|
        places: Seq<[Double; D]>,
        nb: Seq<usize>,
        vs: Seq<Double>,
        target: Seq<Double>,
        r: Result<Seq<Double>, GeostatError>,
    |
        #![trigger a.cutoffs.local_outcome(ar, places, nb, vs, target, r)]
        #![trigger b.cutoffs.local_outcome(ar, places, nb, vs, target, r)]
        a.cutoffs.local_outcome(ar, places, nb, vs, target, r) == b.cutoffs.local_outcome(
            ar,
            places,
            nb,
            vs,
            target,
            r,
        ) by {
        if c1.models@ == c2.models@ {
            if a.cutoffs.local_outcome(ar, places, nb, vs, target, r) {
                lemma_same_local(a.cutoffs, b.cutoffs, ar, places, nb, vs, target, r);
            }
            if b.cutoffs.local_outcome(ar, places, nb, vs, target, r) {
                lemma_same_local(b.cutoffs, a.cutoffs, ar, places, nb, vs, target, r);
            }
        } else {
            one_model_serves_all_cutoffs(a.cutoffs, b.cutoffs, ar, places, nb, vs, target, r);
        }
    }
}

proof fn lemma_same_outcome<const D: usize, F: Fn(Op, Double, Double) -> Double, G: Fn([Double; D]) -> Double>(
    ar: &Arithmetic<F>,
    data: &PointSet<D>,
    nodes: Seq<[Double; D]>,
    levels1: Option<&Vec<u8>>,
    levels2: Option<&Vec<u8>>,
    c1: &SisConfig<D, G>,
    c2: &SisConfig<D, G>,
    r1: Result<Vec<Vec<Double>>, GeostatError>,
    r2: Result<Vec<Vec<Double>>, GeostatError>,
)
    requires
        data.well_formed(),
        same_course(*c1, *c2),
        same_models(*c1, *c2),
        c1.n_realizations == c2.n_realizations,
        level_list(levels1) == level_list(levels2),
        level_list(levels1) matches Some(ls) ==> ls.len() == nodes.len(),
        nodes.len() > 0 ==> sis_runs(ar, data, nodes, c1),
        sis_outcome(ar, data, nodes, levels1, c1, r1),
        sis_outcome(ar, data, nodes, levels2, c2, r2),
    ensures
        same_runs(r1, r2),
{
    lemma_same_check(*c1, *c2);
    if sis_config_ok(*c1) {
        let values = data.attributes();
        let l1 = choose|ladder: Result<Ladder, GeostatError>|
            #![trigger ladder_for(*ar, values, *c1, ladder)]
            ladder_for(*ar, values, *c1, ladder) && match ladder {
                Err(e) => r1 == Err::<Vec<Vec<Double>>, GeostatError>(e),
                Ok(l) => if nodes.len() == 0 {
                    r1 matches Err(e) && invalid(e, "no simulation nodes given"@)
                } else {
                    exists|stage: Stage<D>| #[trigger]
                        stage.is_set(*ar, data.places(), nodes) && realized(
                            &stage,
                            ar,
                            &script_of(c1, &l, levels1),
                            values,
                            c1.n_realizations,
                            c1.seed,
                            r1,
                        )
                },
            };
        let l2 = choose|ladder: Result<Ladder, GeostatError>|
            #![trigger ladder_for(*ar, values, *c2, ladder)]
            ladder_for(*ar, values, *c2, ladder) && match ladder {
                Err(e) => r2 == Err::<Vec<Vec<Double>>, GeostatError>(e),
                Ok(l) => if nodes.len() == 0 {
                    r2 matches Err(e) && invalid(e, "no simulation nodes given"@)
                } else {
                    exists|stage: Stage<D>| #[trigger]
                        stage.is_set(*ar, data.places(), nodes) && realized(
                            &stage,
                            ar,
                            &script_of(c2, &l, levels2),
                            values,
                            c2.n_realizations,
                            c2.seed,
                            r2,
                        )
                },
            };
        assert(l1 is Ok <==> l2 is Ok);
        if l1 is Ok && nodes.len() > 0 {
            let a = script_of(c1, &l1->Ok_0, levels1);
            let b = script_of(c2, &l2->Ok_0, levels2);
            let ta = choose|stage: Stage<D>| #[trigger]
                stage.is_set(*ar, data.places(), nodes) && realized(
                    &stage,
                    ar,
                    &a,
                    values,
                    c1.n_realizations,
                    c1.seed,
                    r1,
                );
            let tb = choose|stage: Stage<D>| #[trigger]
                stage.is_set(*ar, data.places(), nodes) && realized(
                    &stage,
                    ar,
                    &b,
                    values,
                    c2.n_realizations,
                    c2.seed,
                    r2,
                );
            lemma_alike(*ar, values, c1, c2, &l1->Ok_0, &l2->Ok_0, levels1, levels2);
            lemma_same_realized(
                &ta,
                &tb,
                ar,
                &a,
                &b,
                values,
                c1.n_realizations,
                c1.seed,
                r1,
                r2,
            );
        }
    }
}

/// A simulation is reproducible: data, nodes and configuration, the seed among them,
/// determine its realizations, whatever runs beside it.
pub proof fn same_seed_same_realizations<const D: usize, F: Fn(Op, Double, Double) -> Double, G: Fn([Double; D]) -> Double>(
    ar: &Arithmetic<F>,
    data: &PointSet<D>,
    nodes: Seq<[Double; D]>,
    levels: Option<&Vec<u8>>,
    cfg: &SisConfig<D, G>,
    r1: Result<Vec<Vec<Double>>, GeostatError>,
    r2: Result<Vec<Vec<Double>>, GeostatError>,
)
    requires
        data.well_formed(),
        levels matches Some(ls) ==> ls@.len() == nodes.len(),
        nodes.len() > 0 ==> sis_runs(ar, data, nodes, cfg),
        sis_outcome(ar, data, nodes, levels, cfg, r1),
        sis_outcome(ar, data, nodes, levels, cfg, r2),
    ensures
        same_runs(r1, r2),
{
    lemma_same_outcome(ar, data, nodes, levels, levels, cfg, cfg, r1, r2);
}

/// Simulated values stay between the tail bounds, for an arithmetic that keeps order.
pub proof fn realizations_stay_in_bounds<const D: usize, F: Fn(Op, Double, Double) -> Double, G: Fn([Double; D]) -> Double>(
    ar: &Arithmetic<F>,
    data: &PointSet<D>,
    nodes: Seq<[Double; D]>,
    levels: Option<&Vec<u8>>,
    cfg: &SisConfig<D, G>,
    v: Vec<Vec<Double>>,
    lo: Double,
    hi: Double,
    i: int,
    j: int,
)
    requires
        data.well_formed(),
        keeps_order(*ar),
        levels matches Some(ls) ==> ls@.len() == nodes.len(),
        nodes.len() > 0 ==> sis_runs(ar, data, nodes, cfg),
        sis_outcome(ar, data, nodes, levels, cfg, Ok(v)),
        are_bounds(data.attributes(), cfg.tail_min, cfg.tail_max, lo, hi),
        0 <= i < v@.len(),
        0 <= j < v@[i]@.len(),
    ensures
        lo.at_most(v@[i]@[j]),
        v@[i]@[j].at_most(hi),
{
    let values = data.attributes();
    let r1: Result<Vec<Vec<Double>>, GeostatError> = Ok(v);
    let l1 = choose|ladder: Result<Ladder, GeostatError>|
        #![trigger ladder_for(*ar, values, *cfg, ladder)]
        ladder_for(*ar, values, *cfg, ladder) && match ladder {
            Err(e) => r1 == Err::<Vec<Vec<Double>>, GeostatError>(e),
            Ok(l) => if nodes.len() == 0 {
                r1 matches Err(e) && invalid(e, "no simulation nodes given"@)
            } else {
                exists|stage: Stage<D>| #[trigger]
                    stage.is_set(*ar, data.places(), nodes) && realized(
                        &stage,
                        ar,
                        &script_of(cfg, &l, levels),
                        values,
                        cfg.n_realizations,
                        cfg.seed,
                        r1,
                    )
            },
        };
    let script = script_of(cfg, &l1->Ok_0, levels);
    let stage = choose|stage: Stage<D>| #[trigger]
        stage.is_set(*ar, data.places(), nodes) && realized(
            &stage,
            ar,
            &script,
            values,
            cfg.n_realizations,
            cfg.seed,
            r1,
        );
    let seed = stream_seed(cfg.seed, i as nat);
    let sim = v@[i]@;
    let n = nodes.len();
    let list = level_list(levels);
    let steps = sis_steps(&stage, ar, &script);
    assert(is_realization(&stage, ar, &script, values, seed, sim));
    let (path, us, grid) = choose|path: Seq<usize>, us: Seq<Double>, grid: BucketGrid<D>|
        #![trigger sis_cast(seed, n, list, path, us), plays(&stage, ar, grid, steps, path, us, values, script.quotas, sim)]
        sis_cast(seed, n, list, path, us) && plays(
            &stage,
            ar,
            grid,
            steps,
            path,
            us,
            values,
            script.quotas,
            sim,
        );
    path_is_a_permutation(path, Words::seeded(seed), n, list);
    crate::simulation::lemma_same_multiset_members(path, n);
    assert(path.contains(j as usize));
    let t = choose|t: int| 0 <= t < path.len() && path[t] == j as usize;
    let scene = stage.scene(ar);
    assert(scene.stepped(steps, sim, t, path, us, values, grid, script.quotas));
    let nb = choose|nb: Seq<usize>| #[trigger]
        scene.asked(
            steps,
            sim,
            t,
            nb,
            Ok(sim[path[t] as int]),
            path,
            us,
            values,
            grid,
            script.quotas,
        );
    let places = crate::walk::places_of(nb, values.len(), path.take(t));
    let near = crate::walk::values_of(
        nb,
        crate::walk::conditioning(values, sim, path.take(t)),
    );
    let ok: Result<Double, GeostatError> = Ok(sim[j]);
    assert(sis_step(&stage, ar, &script, path[t], places, near, us[t], ok));
    let target = stage.nodes@[path[t] as int]@;
    let ccdf = choose|ccdf: Result<Seq<Double>, GeostatError>| #[trigger]
        script.cutoffs.local_outcome(*ar, stage.all@, places, near, target, ccdf) && match ccdf {
            Err(e) => ok == Err::<Double, GeostatError>(e),
            Ok(c) => ok matches Ok(z) && drawn(*ar, c, script.classes, us[t], z),
        };
    script.cutoffs.lemma_local_len(*ar, stage.all@, places, near, target, ccdf->Ok_0);
    assert(us[t].bits < crate::double::ONE && !us[t].negative());
    assert(in_unit(us[t]));
    draws_stay_in_bounds(*ar, ccdf->Ok_0, script.classes, us[t], sim[j]);
}

/// One model that serves all cutoffs gives the realizations that one model each gives
/// where those are the same.
pub proof fn one_model_gives_the_same_run<const D: usize, F: Fn(Op, Double, Double) -> Double, G: Fn([Double; D]) -> Double>(
    ar: &Arithmetic<F>,
    data: &PointSet<D>,
    nodes: Seq<[Double; D]>,
    levels: Option<&Vec<u8>>,
    one: &SisConfig<D, G>,
    each: &SisConfig<D, G>,
    r1: Result<Vec<Vec<Double>>, GeostatError>,
    r2: Result<Vec<Vec<Double>>, GeostatError>,
)
    requires
        data.well_formed(),
        same_course(*one, *each),
        shares_model(*one, *each),
        one.n_realizations == each.n_realizations,
        levels matches Some(ls) ==> ls@.len() == nodes.len(),
        nodes.len() > 0 ==> sis_runs(ar, data, nodes, one),
        sis_outcome(ar, data, nodes, levels, one, r1),
        sis_outcome(ar, data, nodes, levels, each, r2),
    ensures
        same_runs(r1, r2),
{
    lemma_same_outcome(ar, data, nodes, levels, levels, one, each, r1, r2);
}

/// The first realizations do not depend on how many are run: a run of more gives
/// the same ones first.
pub proof fn first_realizations_stay<const D: usize, F: Fn(Op, Double, Double) -> Double, G: Fn([Double; D]) -> Double>(
    ar: &Arithmetic<F>,
    data: &PointSet<D>,
    nodes: Seq<[Double; D]>,
    levels: Option<&Vec<u8>>,
    few: &SisConfig<D, G>,
    many: &SisConfig<D, G>,
    v1: Vec<Vec<Double>>,
    v2: Vec<Vec<Double>>,
)
    requires
        data.well_formed(),
        same_course(*few, *many),
        few.models@ == many.models@,
        few.n_realizations <= many.n_realizations,
        levels matches Some(ls) ==> ls@.len() == nodes.len(),
        nodes.len() > 0 ==> sis_runs(ar, data, nodes, many),
        sis_outcome(ar, data, nodes, levels, few, Ok(v1)),
        sis_outcome(ar, data, nodes, levels, many, Ok(v2)),
    ensures
        v1@.len() == few.n_realizations,
        v2@.len() == many.n_realizations,
        forall|i: int| 0 <= i < v1@.len() ==> (#[trigger] v1@[i])@ == v2@[i]@,
{
    let values = data.attributes();
    let r1: Result<Vec<Vec<Double>>, GeostatError> = Ok(v1);
    let r2: Result<Vec<Vec<Double>>, GeostatError> = Ok(v2);
    let l1 = choose|ladder: Result<Ladder, GeostatError>|
        #![trigger ladder_for(*ar, values, *few, ladder)]
        ladder_for(*ar, values, *few, ladder) && match ladder {
            Err(e) => r1 == Err::<Vec<Vec<Double>>, GeostatError>(e),
            Ok(l) => if nodes.len() == 0 {
                r1 matches Err(e) && invalid(e, "no simulation nodes given"@)
            } else {
                exists|stage: Stage<D>| #[trigger]
                    stage.is_set(*ar, data.places(), nodes) && realized(
                        &stage,
                        ar,
                        &script_of(few, &l, levels),
                        values,
                        few.n_realizations,
                        few.seed,
                        r1,
                    )
            },
        };
    let l2 = choose|ladder: Result<Ladder, GeostatError>|
        #![trigger ladder_for(*ar, values, *many, ladder)]
        ladder_for(*ar, values, *many, ladder) && match ladder {
            Err(e) => r2 == Err::<Vec<Vec<Double>>, GeostatError>(e),
            Ok(l) => if nodes.len() == 0 {
                r2 matches Err(e) && invalid(e, "no simulation nodes given"@)
            } else {
                exists|stage: Stage<D>| #[trigger]
                    stage.is_set(*ar, data.places(), nodes) && realized(
                        &stage,
                        ar,
                        &script_of(many, &l, levels),
                        values,
                        many.n_realizations,
                        many.seed,
                        r2,
                    )
            },
        };
    let a = script_of(few, &l1->Ok_0, levels);
    let b = script_of(many, &l2->Ok_0, levels);
    let ta = choose|stage: Stage<D>| #[trigger]
        stage.is_set(*ar, data.places(), nodes) && realized(
            &stage,
            ar,
            &a,
            values,
            few.n_realizations,
            few.seed,
            r1,
        );
    let tb = choose|stage: Stage<D>| #[trigger]
        stage.is_set(*ar, data.places(), nodes) && realized(
            &stage,
            ar,
            &b,
            values,
            many.n_realizations,
            many.seed,
            r2,
        );
    lemma_alike(*ar, values, few, many, &l1->Ok_0, &l2->Ok_0, levels, levels);
    assert forall|i: int| 0 <= i < v1@.len() implies (#[trigger] v1@[i])@ == v2@[i]@ by {
        let seed = stream_seed(many.seed, i as nat);
        assert(is_realization(&ta, ar, &a, values, seed, v1@[i]@));
        assert(is_realization(&tb, ar, &b, values, seed, v2@[i]@));
        lemma_realization_is_unique(&ta, &tb, ar, &a, &b, values, seed, v1@[i]@, v2@[i]@);
    }
}

/// A simulation on a 2-D grid is reproducible.
pub proof fn same_seed_same_grid_2d<F: Fn(Op, Double, Double) -> Double, G: Fn([Double; 2]) -> Double>(
    ar: &Arithmetic<F>,
    data: &PointSet<2>,
    grid: Grid2D,
    cfg: &SisConfig<2, G>,
    r1: Result<Vec<Vec<Double>>, GeostatError>,
    r2: Result<Vec<Vec<Double>>, GeostatError>,
)
    requires
        data.well_formed(),
        grid_runs_2d(ar, data, grid, cfg),
        grid_outcome_2d(ar, data, grid, cfg, r1),
        grid_outcome_2d(ar, data, grid, cfg, r2),
    ensures
        same_runs(r1, r2),
{
    let (c1, l1) = choose|centers: Seq<[Double; 2]>, levels: Option<Vec<u8>>|
        #![trigger grid.are_centers(*ar, centers), levels_for_2d(levels, grid, cfg.multigrid)]
        grid.are_centers(*ar, centers) && levels_for_2d(levels, grid, cfg.multigrid)
            && sis_outcome(ar, data, centers, level_ref(&levels), cfg, r1);
    let (c2, l2) = choose|centers: Seq<[Double; 2]>, levels: Option<Vec<u8>>|
        #![trigger grid.are_centers(*ar, centers), levels_for_2d(levels, grid, cfg.multigrid)]
        grid.are_centers(*ar, centers) && levels_for_2d(levels, grid, cfg.multigrid)
            && sis_outcome(ar, data, centers, level_ref(&levels), cfg, r2);
    grid.centers_are_unique(*ar, c1, c2);
    levels_are_unique_2d(l1, l2, grid, cfg.multigrid);
    if sis_config_ok(*cfg) {
        lemma_same_outcome(ar, data, c1, level_ref(&l1), level_ref(&l2), cfg, cfg, r1, r2);
    }
}

/// One model that serves all cutoffs gives the realizations on a 2-D grid that one
/// model each gives where those are the same.
pub proof fn one_model_gives_the_same_grid_2d<F: Fn(Op, Double, Double) -> Double, G: Fn([Double; 2]) -> Double>(
    ar: &Arithmetic<F>,
    data: &PointSet<2>,
    grid: Grid2D,
    one: &SisConfig<2, G>,
    each: &SisConfig<2, G>,
    r1: Result<Vec<Vec<Double>>, GeostatError>,
    r2: Result<Vec<Vec<Double>>, GeostatError>,
)
    requires
        data.well_formed(),
        same_course(*one, *each),
        shares_model(*one, *each),
        one.n_realizations == each.n_realizations,
        one.multigrid == each.multigrid,
        grid_runs_2d(ar, data, grid, one),
        grid_outcome_2d(ar, data, grid, one, r1),
        grid_outcome_2d(ar, data, grid, each, r2),
    ensures
        same_runs(r1, r2),
{
    let (c1, l1) = choose|centers: Seq<[Double; 2]>, levels: Option<Vec<u8>>|
        #![trigger grid.are_centers(*ar, centers), levels_for_2d(levels, grid, one.multigrid)]
        grid.are_centers(*ar, centers) && levels_for_2d(levels, grid, one.multigrid)
            && sis_outcome(ar, data, centers, level_ref(&levels), one, r1);
    let (c2, l2) = choose|centers: Seq<[Double; 2]>, levels: Option<Vec<u8>>|
        #![trigger grid.are_centers(*ar, centers), levels_for_2d(levels, grid, one.multigrid)]
        grid.are_centers(*ar, centers) && levels_for_2d(levels, grid, one.multigrid)
            && sis_outcome(ar, data, centers, level_ref(&levels), each, r2);
    grid.centers_are_unique(*ar, c1, c2);
    levels_are_unique_2d(l1, l2, grid, one.multigrid);
    lemma_same_check(*one, *each);
    if sis_config_ok(*one) {
        lemma_same_outcome(ar, data, c1, level_ref(&l1), level_ref(&l2), one, each, r1, r2);
    }
}

/// A simulation on a 3-D grid is reproducible.
pub proof fn same_seed_same_grid_3d<F: Fn(Op, Double, Double) -> Double, G: Fn([Double; 3]) -> Double>(
    ar: &Arithmetic<F>,
    data: &PointSet<3>,
    grid: Grid3D,
    cfg: &SisConfig<3, G>,
    r1: Result<Vec<Vec<Double>>, GeostatError>,
    r2: Result<Vec<Vec<Double>>, GeostatError>,
)
    requires
        data.well_formed(),
        grid_runs_3d(ar, data, grid, cfg),
        grid_outcome_3d(ar, data, grid, cfg, r1),
        grid_outcome_3d(ar, data, grid, cfg, r2),
    ensures
        same_runs(r1, r2),
{
    let (c1, l1) = choose|centers: Seq<[Double; 3]>, levels: Option<Vec<u8>>|
        #![trigger grid.are_centers(*ar, centers), levels_for_3d(levels, grid, cfg.multigrid)]
        grid.are_centers(*ar, centers) && levels_for_3d(levels, grid, cfg.multigrid)
            && sis_outcome(ar, data, centers, level_ref(&levels), cfg, r1);
    let (c2, l2) = choose|centers: Seq<[Double; 3]>, levels: Option<Vec<u8>>|
        #![trigger grid.are_centers(*ar, centers), levels_for_3d(levels, grid, cfg.multigrid)]
        grid.are_centers(*ar, centers) && levels_for_3d(levels, grid, cfg.multigrid)
            && sis_outcome(ar, data, centers, level_ref(&levels), cfg, r2);
    grid.centers_are_unique(*ar, c1, c2);
    levels_are_unique_3d(l1, l2, grid, cfg.multigrid);
    if sis_config_ok(*cfg) {
        lemma_same_outcome(ar, data, c1, level_ref(&l1), level_ref(&l2), cfg, cfg, r1, r2);
    }
}

/// One model that serves all cutoffs gives the realizations on a 3-D grid that one
/// model each gives where those are the same.
pub proof fn one_model_gives_the_same_grid_3d<F: Fn(Op, Double, Double) -> Double, G: Fn([Double; 3]) -> Double>(
    ar: &Arithmetic<F>,
    data: &PointSet<3>,
    grid: Grid3D,
    one: &SisConfig<3, G>,
    each: &SisConfig<3, G>,
    r1: Result<Vec<Vec<Double>>, GeostatError>,
    r2: Result<Vec<Vec<Double>>, GeostatError>,
)
    requires
        data.well_formed(),
        same_course(*one, *each),
        shares_model(*one, *each),
        one.n_realizations == each.n_realizations,
        one.multigrid == each.multigrid,
        grid_runs_3d(ar, data, grid, one),
        grid_outcome_3d(ar, data, grid, one, r1),
        grid_outcome_3d(ar, data, grid, each, r2),
    ensures
        same_runs(r1, r2),
{
    let (c1, l1) = choose|centers: Seq<[Double; 3]>, levels: Option<Vec<u8>>|
        #![trigger grid.are_centers(*ar, centers), levels_for_3d(levels, grid, one.multigrid)]
        grid.are_centers(*ar, centers) && levels_for_3d(levels, grid, one.multigrid)
            && sis_outcome(ar, data, centers, level_ref(&levels), one, r1);
    let (c2, l2) = choose|centers: Seq<[Double; 3]>, levels: Option<Vec<u8>>|
        #![trigger grid.are_centers(*ar, centers), levels_for_3d(levels, grid, one.multigrid)]
        grid.are_centers(*ar, centers) && levels_for_3d(levels, grid, one.multigrid)
            && sis_outcome(ar, data, centers, level_ref(&levels), each, r2);
    grid.centers_are_unique(*ar, c1, c2);
    levels_are_unique_3d(l1, l2, grid, one.multigrid);
    lemma_same_check(*one, *each);
    if sis_config_ok(*one) {
        lemma_same_outcome(ar, data, c1, level_ref(&l1), level_ref(&l2), one, each, r1, r2);
    }
}

} // verus!

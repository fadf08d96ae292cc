//! Sequential simulation of a standard Gaussian field along a random path.

use vstd::prelude::*;

use crate::arith::{num, Arithmetic, Op};
use crate::bucket_grid::BucketGrid;
use crate::covariance::Covariance;
use crate::double::Double;
use crate::error::GeostatError;
use crate::rng::{draws_normals, lively, normals_are_unique, Rng, Words};
use crate::simple::{simple_kriging_ns, sk_estimate, sk_estimate_is_unique};
use crate::simulation::{
    is_path, level_list, path_is_a_permutation, path_is_unique, simulation_path,
};
use crate::stage::{
    after_path, can_lay_out, lemma_path_visits_all, play_excludes_failure, play_is_unique, plays,
    same_stage, stumbles, systems_fit, Stage,
};
use crate::walk::{decides, step_input, visits_all, walk_by, Quotas, Scene, Step};

verus! {

/// A draw around a mean: a variance below zero counts as zero.
pub open spec fn gauss_draw<F: Fn(Op, Double, Double) -> Double>(
    ar: Arithmetic<F>,
    mean: Double,
    var: Double,
    draw: Double,
) -> Double {
    ar.plus(mean, ar.times(ar.sqrt(var.max(num(0))), draw))
}

/// What a step gives: without neighbors a draw around zero with the variance of
/// the field, otherwise one around the kriging mean.
pub open spec fn gauss_step<const D: usize, F: Fn(Op, Double, Double) -> Double, G: Fn([Double; D]) -> Double>(
    stage: &Stage<D>,
    ar: &Arithmetic<F>,
    model: &Covariance<D, G>,
    node: usize,
    places: Seq<usize>,
    values: Seq<Double>,
    draw: Double,
    r: Result<Double, GeostatError>,
) -> bool {
    if places.len() == 0 {
        r == Ok::<Double, GeostatError>(gauss_draw(*ar, num(0), model.sill, draw))
    } else {
        exists|k: Result<(Double, Double), GeostatError>| #[trigger]
            sk_estimate(
                *ar,
                *model,
                stage.all@,
                places,
                values,
                stage.nodes@[node as int]@,
                k,
            ) && match k {
                Err(e) => r == Err::<Double, GeostatError>(e),
                Ok((mean, var)) => r == Ok::<Double, GeostatError>(
                    gauss_draw(*ar, mean, var, draw),
                ),
            }
    }
}

/// The steps of the walk.
pub open spec fn gauss_steps<const D: usize, F: Fn(Op, Double, Double) -> Double, G: Fn([Double; D]) -> Double>(
    stage: &Stage<D>,
    ar: &Arithmetic<F>,
    model: &Covariance<D, G>,
) -> Step {
    |
        node: usize,
        places: Seq<usize>,
        values: Seq<Double>,
        draw: Double,
        r: Result<Double, GeostatError>,
    | gauss_step(stage, ar, model, node, places, values, draw, r)
}

/// A step can be asked for.
pub open spec fn gauss_ready<const D: usize, F: Fn(Op, Double, Double) -> Double, G: Fn([Double; D]) -> Double>(
    stage: &Stage<D>,
    ar: &Arithmetic<F>,
    model: &Covariance<D, G>,
    most: nat,
) -> bool {
    &&& ar.total()
    &&& model.total()
    &&& stage.all@ == stage.data@ + stage.nodes@
    &&& most * most <= usize::MAX
}

fn take_step<const D: usize, F: Fn(Op, Double, Double) -> Double, G: Fn([Double; D]) -> Double>(
    stage: &Stage<D>,
    ar: &Arithmetic<F>,
    model: &Covariance<D, G>,
    node: usize,
    places: &Vec<usize>,
    values: &Vec<Double>,
    draw: Double,
    Ghost(most): Ghost<nat>,
) -> (r: Result<Double, GeostatError>)
    requires
        gauss_ready(stage, ar, model, most),
        step_input(places@, values@, node, stage.data@.len(), stage.nodes@.len(), most),
    ensures
        gauss_step(stage, ar, model, node, places@, values@, draw, r),
{
    let (mean, var): (Double, Double) = if places.len() == 0 {
        (Double::zero(), model.sill)
    } else {
        let target: [Double; D] = stage.nodes[node];
        proof {
            assert(places.len() * places.len() <= most * most) by (nonlinear_arith)
                requires
                    places.len() <= most,
            ;
        }
        let k: Result<(Double, Double), GeostatError> = simple_kriging_ns(
            &stage.all,
            places,
            values,
            model,
            &target,
            ar,
        );
        match k {
            Err(e) => {
                return Err(e);
            },
            Ok(mv) => mv,
        }
    };
    Ok(ar.plus(mean, ar.times(ar.sqrt(var.max(num(0))), draw)))
}

/// `draws` are standard normals of a generator in state `w`.
pub open spec fn are_normals<F: Fn(Op, Double, Double) -> Double>(
    ar: Arithmetic<F>,
    w: Words,
    draws: Seq<Double>,
) -> bool {
    exists|w2: Words, spare: Option<Double>| #[trigger]
        draws_normals(ar, w, None, draws, w2, spare)
}

/// The path and the draws of a seed.
pub open spec fn gauss_cast<F: Fn(Op, Double, Double) -> Double>(
    ar: Arithmetic<F>,
    seed: u64,
    n: nat,
    levels: Option<Seq<u8>>,
    path: Seq<usize>,
    draws: Seq<Double>,
) -> bool {
    &&& is_path(path, Words::seeded(seed), n, levels)
    &&& draws.len() == n
    &&& are_normals(ar, after_path(seed, n), draws)
}

/// `field` is the Gaussian field of a seed: the draws of a generator that has
/// drawn the path, combined along the path with the kriging estimates from data
/// and nodes visited before.
pub open spec fn is_field<const D: usize, F: Fn(Op, Double, Double) -> Double, G: Fn([Double; D]) -> Double>(
    stage: &Stage<D>,
    ar: &Arithmetic<F>,
    model: &Covariance<D, G>,
    levels: Option<Seq<u8>>,
    data_values: Seq<Double>,
    q: Quotas,
    seed: u64,
    field: Seq<Double>,
) -> bool {
    exists|path: Seq<usize>, draws: Seq<Double>, grid: BucketGrid<D>|
        #![trigger gauss_cast(*ar, seed, stage.nodes@.len(), levels, path, draws), plays(stage, ar, grid, gauss_steps(stage, ar, model), path, draws, data_values, q, field)]
        gauss_cast(*ar, seed, stage.nodes@.len(), levels, path, draws) && plays(
            stage,
            ar,
            grid,
            gauss_steps(stage, ar, model),
            path,
            draws,
            data_values,
            q,
            field,
        )
}

/// The walk of this seed fails with `e`.
pub open spec fn field_fails<const D: usize, F: Fn(Op, Double, Double) -> Double, G: Fn([Double; D]) -> Double>(
    stage: &Stage<D>,
    ar: &Arithmetic<F>,
    model: &Covariance<D, G>,
    levels: Option<Seq<u8>>,
    data_values: Seq<Double>,
    q: Quotas,
    seed: u64,
    e: GeostatError,
) -> bool {
    exists|path: Seq<usize>, draws: Seq<Double>, grid: BucketGrid<D>|
        #![trigger gauss_cast(*ar, seed, stage.nodes@.len(), levels, path, draws), stumbles(stage, ar, grid, gauss_steps(stage, ar, model), path, draws, data_values, q, e)]
        gauss_cast(*ar, seed, stage.nodes@.len(), levels, path, draws) && stumbles(
            stage,
            ar,
            grid,
            gauss_steps(stage, ar, model),
            path,
            draws,
            data_values,
            q,
            e,
        )
}

/// A field can be simulated on the stage.
pub open spec fn playable<const D: usize, F: Fn(Op, Double, Double) -> Double, G: Fn([Double; D]) -> Double>(
    stage: &Stage<D>,
    ar: &Arithmetic<F>,
    model: &Covariance<D, G>,
    levels: Option<&Vec<u8>>,
    n_data: nat,
    q: Quotas,
) -> bool {
    &&& can_lay_out(*ar, stage.data@, stage.nodes@)
    &&& stage.is_set(*ar, stage.data@, stage.nodes@)
    &&& model.total()
    &&& n_data == stage.data@.len()
    &&& levels matches Some(ls) ==> ls@.len() == stage.nodes@.len()
    &&& systems_fit(q, n_data, stage.nodes@.len())
}

/// Walks a path with the steps of a Gaussian simulation.
fn walk_gaussian<const D: usize, F: Fn(Op, Double, Double) -> Double, G: Fn([Double; D]) -> Double>(
    stage: &Stage<D>,
    model: &Covariance<D, G>,
    data_values: &Vec<Double>,
    path: &Vec<usize>,
    draws: &Vec<Double>,
    q: Quotas,
    ar: &Arithmetic<F>,
) -> (out: (Ghost<BucketGrid<D>>, Result<Vec<Double>, GeostatError>))
    requires
        playable(stage, ar, model, None, data_values@.len(), q),
        visits_all(path@, stage.nodes@.len()),
        draws@.len() == path@.len(),
    ensures
        match out.1 {
            Ok(field) => plays(
                stage,
                ar,
                out.0@,
                gauss_steps(stage, ar, model),
                path@,
                draws@,
                data_values@,
                q,
                field@,
            ),
            Err(e) => stumbles(
                stage,
                ar,
                out.0@,
                gauss_steps(stage, ar, model),
                path@,
                draws@,
                data_values@,
                q,
                e,
            ),
        },
{
    let n: usize = stage.nodes.len();
    let grid: BucketGrid<D> = stage.node_store(ar);
    let ghost empty = grid;
    let n_data: usize = data_values.len();
    let ghost most = q.most(n_data as nat, n as nat);
    proof {
        assert(most * most <= (most + 1) * (most + 1)) by (nonlinear_arith);
    }
    let step = |node: usize, p: &Vec<usize>, v: &Vec<Double>, draw: Double| -> (out: Result<
        Double,
        GeostatError,
    >)
        requires
            gauss_ready(stage, ar, model, most),
            step_input(p@, v@, node, stage.data@.len(), stage.nodes@.len(), most),
        ensures
            gauss_step(stage, ar, model, node, p@, v@, draw, out),
        { take_step(stage, ar, model, node, p, v, draw, Ghost(most)) };
    let scene: Scene<D, F> = Scene {
        data: &stage.data,
        nodes: &stage.nodes,
        data_grid: &stage.grid,
        ar,
    };
    let ghost steps = gauss_steps(stage, ar, model);
    let r: Result<Vec<Double>, GeostatError> = walk_by(
        &scene,
        grid,
        data_values,
        path,
        draws,
        q,
        &step,
        Ghost(steps),
    );
    proof {
        assert(scene == stage.scene(ar));
        if r is Ok {
            assert(plays(stage, ar, empty, steps, path@, draws@, data_values@, q, r->Ok_0@));
        } else {
            assert(stumbles(stage, ar, empty, steps, path@, draws@, data_values@, q, r->Err_0));
        }
    }
    (Ghost(empty), r)
}

/// Simulates the Gaussian field of one seed: a random path, then at each node a
/// draw around the simple kriging estimate from the nearest data and previously
/// simulated nodes.
pub fn simulate_gaussian_path<const D: usize, F: Fn(Op, Double, Double) -> Double, G: Fn([Double; D]) -> Double>(
    stage: &Stage<D>,
    model: &Covariance<D, G>,
    levels: Option<&Vec<u8>>,
    data_values: &Vec<Double>,
    q: Quotas,
    seed: u64,
    ar: &Arithmetic<F>,
) -> (r: Result<Vec<Double>, GeostatError>)
    requires
        playable(stage, ar, model, levels, data_values@.len(), q),
        lively(after_path(seed, stage.nodes@.len())),
    ensures
        match r {
            Ok(field) => is_field(
                stage,
                ar,
                model,
                level_list(levels),
                data_values@,
                q,
                seed,
                field@,
            ),
            Err(e) => field_fails(
                stage,
                ar,
                model,
                level_list(levels),
                data_values@,
                q,
                seed,
                e,
            ),
        },
{
    let mut rng: Rng = Rng::new(seed);
    let n: usize = stage.nodes.len();
    let path: Vec<usize> = simulation_path(&mut rng, n, levels);
    proof {
        lemma_path_visits_all(path@, n as nat);
    }
    let draws: Vec<Double> = rng.normals(n, ar);
    assert(gauss_cast(*ar, seed, n as nat, level_list(levels), path@, draws@));
    let (grid, r): (Ghost<BucketGrid<D>>, Result<Vec<Double>, GeostatError>) = walk_gaussian(
        stage,
        model,
        data_values,
        &path,
        &draws,
        q,
        ar,
    );
    proof {
        let steps = gauss_steps(stage, ar, model);
        if r is Ok {
            assert(plays(
                stage,
                ar,
                grid@,
                steps,
                path@,
                draws@,
                data_values@,
                q,
                r->Ok_0@,
            ));
        } else {
            assert(stumbles(
                stage,
                ar,
                grid@,
                steps,
                path@,
                draws@,
                data_values@,
                q,
                r->Err_0,
            ));
        }
    }
    r
}

proof fn lemma_gauss_decides<const D: usize, F: Fn(Op, Double, Double) -> Double, G: Fn([Double; D]) -> Double>(
    stage: &Stage<D>,
    ar: &Arithmetic<F>,
    model: &Covariance<D, G>,
)
    ensures
        decides(gauss_steps(stage, ar, model)),
{
    let steps = gauss_steps(stage, ar, model);
    assert forall|
        node: usize,
        places: Seq<usize>,
        values: Seq<Double>,
        draw: Double,
        z: Double,
        r: Result<Double, GeostatError>,
    |
        #![trigger steps(node, places, values, draw, Ok(z)), steps(node, places, values, draw, r)]
        steps(node, places, values, draw, Ok(z)) && steps(node, places, values, draw, r) implies r
        == Ok::<Double, GeostatError>(z) by {
        let ok: Result<Double, GeostatError> = Ok(z);
        assert(gauss_step(stage, ar, model, node, places, values, draw, ok));
        assert(gauss_step(stage, ar, model, node, places, values, draw, r));
        if places.len() > 0 {
            let target = stage.nodes@[node as int]@;
            let k1 = choose|k: Result<(Double, Double), GeostatError>| #[trigger]
                sk_estimate(*ar, *model, stage.all@, places, values, target, k) && match k {
                    Err(e) => ok == Err::<Double, GeostatError>(e),
                    Ok((mean, var)) => ok == Ok::<Double, GeostatError>(
                        gauss_draw(*ar, mean, var, draw),
                    ),
                };
            let k2 = choose|k: Result<(Double, Double), GeostatError>| #[trigger]
                sk_estimate(*ar, *model, stage.all@, places, values, target, k) && match k {
                    Err(e) => r == Err::<Double, GeostatError>(e),
                    Ok((mean, var)) => r == Ok::<Double, GeostatError>(
                        gauss_draw(*ar, mean, var, draw),
                    ),
                };
            sk_estimate_is_unique(
                *ar,
                *model,
                stage.all@,
                places,
                values,
                target,
                k1->Ok_0,
                k2,
            );
        }
    }
}

proof fn lemma_cast_is_unique<F: Fn(Op, Double, Double) -> Double>(
    ar: Arithmetic<F>,
    seed: u64,
    n: nat,
    levels: Option<Seq<u8>>,
    p1: Seq<usize>,
    d1: Seq<Double>,
    p2: Seq<usize>,
    d2: Seq<Double>,
)
    requires
        gauss_cast(ar, seed, n, levels, p1, d1),
        gauss_cast(ar, seed, n, levels, p2, d2),
    ensures
        p1 == p2,
        d1 == d2,
{
    path_is_unique(p1, p2, Words::seeded(seed), n, levels);
    let w = after_path(seed, n);
    let (w1, s1) = choose|w2: Words, spare: Option<Double>| #[trigger]
        draws_normals(ar, w, None, d1, w2, spare);
    let (w2, s2) = choose|w2: Words, spare: Option<Double>| #[trigger]
        draws_normals(ar, w, None, d2, w2, spare);
    normals_are_unique(ar, w, None, d1, w1, s1, d2, w2, s2);
}

/// A seed makes one field: two fields of one seed, simulated for the same data and
/// nodes, have the same values.
pub proof fn field_is_unique<const D: usize, F: Fn(Op, Double, Double) -> Double, G: Fn([Double; D]) -> Double>(
    a: &Stage<D>,
    b: &Stage<D>,
    ar: &Arithmetic<F>,
    model: &Covariance<D, G>,
    levels: Option<Seq<u8>>,
    data_values: Seq<Double>,
    q: Quotas,
    seed: u64,
    f1: Seq<Double>,
    f2: Seq<Double>,
)
    requires
        same_stage(*ar, a, b),
        a.nodes@.len() <= usize::MAX,
        levels matches Some(ls) ==> ls.len() == a.nodes@.len(),
        is_field(a, ar, model, levels, data_values, q, seed, f1),
        is_field(b, ar, model, levels, data_values, q, seed, f2),
    ensures
        f1 == f2,
{
    let n = a.nodes@.len();
    let sa = gauss_steps(a, ar, model);
    let sb = gauss_steps(b, ar, model);
    assert(sa =~= sb);
    lemma_gauss_decides(a, ar, model);
    let (p1, d1, g1) = choose|path: Seq<usize>, draws: Seq<Double>, grid: BucketGrid<D>|
        #![trigger gauss_cast(*ar, seed, n, levels, path, draws), plays(a, ar, grid, sa, path, draws, data_values, q, f1)]
        gauss_cast(*ar, seed, n, levels, path, draws) && plays(
            a,
            ar,
            grid,
            sa,
            path,
            draws,
            data_values,
            q,
            f1,
        );
    let (p2, d2, g2) = choose|path: Seq<usize>, draws: Seq<Double>, grid: BucketGrid<D>|
        #![trigger gauss_cast(*ar, seed, n, levels, path, draws), plays(b, ar, grid, sb, path, draws, data_values, q, f2)]
        gauss_cast(*ar, seed, n, levels, path, draws) && plays(
            b,
            ar,
            grid,
            sb,
            path,
            draws,
            data_values,
            q,
            f2,
        );
    lemma_cast_is_unique(*ar, seed, n, levels, p1, d1, p2, d2);
    path_is_a_permutation(p1, Words::seeded(seed), n, levels);
    crate::simulation::lemma_same_multiset_members(p1, n);
    play_is_unique(a, b, ar, g1, g2, sa, p1, d1, data_values, q, f1, f2);
}

/// A seed that makes a field for some data and nodes does not also fail for them.
pub proof fn field_excludes_failure<const D: usize, F: Fn(Op, Double, Double) -> Double, G: Fn([Double; D]) -> Double>(
    a: &Stage<D>,
    b: &Stage<D>,
    ar: &Arithmetic<F>,
    model: &Covariance<D, G>,
    levels: Option<Seq<u8>>,
    data_values: Seq<Double>,
    q: Quotas,
    seed: u64,
    field: Seq<Double>,
    e: GeostatError,
)
    requires
        same_stage(*ar, a, b),
        is_field(a, ar, model, levels, data_values, q, seed, field),
    ensures
        !field_fails(b, ar, model, levels, data_values, q, seed, e),
{
    if field_fails(b, ar, model, levels, data_values, q, seed, e) {
        let n = a.nodes@.len();
        let sa = gauss_steps(a, ar, model);
        let sb = gauss_steps(b, ar, model);
        assert(sa =~= sb);
        lemma_gauss_decides(a, ar, model);
        let (p1, d1, g1) = choose|path: Seq<usize>, draws: Seq<Double>, grid: BucketGrid<D>|
            #![trigger gauss_cast(*ar, seed, n, levels, path, draws), plays(a, ar, grid, sa, path, draws, data_values, q, field)]
            gauss_cast(*ar, seed, n, levels, path, draws) && plays(
                a,
                ar,
                grid,
                sa,
                path,
                draws,
                data_values,
                q,
                field,
            );
        let (p2, d2, g2) = choose|path: Seq<usize>, draws: Seq<Double>, grid: BucketGrid<D>|
            #![trigger gauss_cast(*ar, seed, n, levels, path, draws), stumbles(b, ar, grid, sb, path, draws, data_values, q, e)]
            gauss_cast(*ar, seed, n, levels, path, draws) && stumbles(
                b,
                ar,
                grid,
                sb,
                path,
                draws,
                data_values,
                q,
                e,
            );
        lemma_cast_is_unique(*ar, seed, n, levels, p1, d1, p2, d2);
        play_excludes_failure(a, b, ar, g1, g2, sa, p1, d1, data_values, q, field, e);
    }
}

} // verus!

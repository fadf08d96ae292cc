//! The places of a sequential simulation: data and nodes, the box around them,
//! and the data sorted into cells.

use vstd::prelude::*;

use crate::arith::{Arithmetic, Op};
use crate::bucket_grid::{
    axis_cells, doubled, extents_of, first_cell, fits, settles, settles_at, BucketGrid,
};
use crate::data::{bbox_of, copy_points, finite_points, greatest_coord, least_coord};
use crate::double::{Double, HIDDEN};
use crate::error::GeostatError;
use crate::matrix::holdable;
use crate::rng::Words;
use crate::simulation::storage_order;
use crate::walk::{
    decides, lemma_same_walk, same_cells, same_scene, visits_all, Quotas, Scene, Step,
};

verus! {

/// Least of a coordinate and that of the first `n` nodes along axis `d`.
pub open spec fn low_among<const D: usize>(
    start: Double,
    nodes: Seq<[Double; D]>,
    d: int,
    n: int,
) -> Double
    decreases n,
{
    if n <= 0 {
        start
    } else {
        low_among(start, nodes, d, n - 1).min(nodes[n - 1]@[d])
    }
}

/// Greatest of a coordinate and that of the first `n` nodes along axis `d`.
pub open spec fn high_among<const D: usize>(
    start: Double,
    nodes: Seq<[Double; D]>,
    d: int,
    n: int,
) -> Double
    decreases n,
{
    if n <= 0 {
        start
    } else {
        high_among(start, nodes, d, n - 1).max(nodes[n - 1]@[d])
    }
}

/// `min` and `max` are the corners of the box around the data, stretched to hold the
/// nodes.
pub open spec fn is_extent<const D: usize>(
    data: Seq<[Double; D]>,
    nodes: Seq<[Double; D]>,
    min: [Double; D],
    max: [Double; D],
) -> bool {
    &&& forall|d: int|
        0 <= d < D ==> #[trigger] min@[d] == low_among(
            least_coord(data, d, data.len() as int),
            nodes,
            d,
            nodes.len() as int,
        )
    &&& forall|d: int|
        0 <= d < D ==> #[trigger] max@[d] == high_among(
            greatest_coord(data, d, data.len() as int),
            nodes,
            d,
            nodes.len() as int,
        )
}

/// The grid is laid out over a box for a number of points.
pub open spec fn laid_out<const D: usize, F: Fn(Op, Double, Double) -> Double>(
    ar: Arithmetic<F>,
    grid: BucketGrid<D>,
    min: Seq<Double>,
    max: Seq<Double>,
    expected: nat,
) -> bool {
    let exts = extents_of(ar, min, max);
    &&& grid.corner() == min
    &&& grid.shape() == axis_cells(ar, exts, grid.size())
    &&& exists|k: nat| #[trigger]
        settles_at(ar, exts, expected, k) && grid.size() == doubled(
            ar,
            first_cell(ar, exts, expected),
            k,
        )
}

/// Places of a simulation.
pub struct Stage<const D: usize> {
    /// Coordinates of the data.
    pub data: Vec<[Double; D]>,
    /// Coordinates of the nodes.
    pub nodes: Vec<[Double; D]>,
    /// Coordinates of the data, then of the nodes.
    pub all: Vec<[Double; D]>,
    /// Lower corner of the box around them.
    pub min: [Double; D],
    /// Upper corner of the box around them.
    pub max: [Double; D],
    /// The data, sorted into cells.
    pub grid: BucketGrid<D>,
}

/// Cells can be laid out over data and nodes.
pub open spec fn can_lay_out<const D: usize, F: Fn(Op, Double, Double) -> Double>(
    ar: Arithmetic<F>,
    data: Seq<[Double; D]>,
    nodes: Seq<[Double; D]>,
) -> bool {
    &&& 0 < D
    &&& D < 2 * HIDDEN
    &&& ar.ieee()
    &&& finite_points(data)
    &&& 0 < data.len() < u32::MAX
    &&& nodes.len() < u32::MAX
    &&& data.len() + nodes.len() <= usize::MAX
    &&& forall|min: [Double; D], max: [Double; D]| #[trigger]
        is_extent(data, nodes, min, max) ==> settles(
            ar,
            extents_of(ar, min@, max@),
            data.len(),
        ) && settles(ar, extents_of(ar, min@, max@), nodes.len())
}

impl<const D: usize> Stage<D> {
    /// The stage is set for these data and nodes.
    pub open spec fn is_set<F: Fn(Op, Double, Double) -> Double>(
        &self,
        ar: Arithmetic<F>,
        data: Seq<[Double; D]>,
        nodes: Seq<[Double; D]>,
    ) -> bool {
        &&& self.data@ == data
        &&& self.nodes@ == nodes
        &&& self.all@ == data + nodes
        &&& is_extent(data, nodes, self.min, self.max)
        &&& laid_out(ar, self.grid, self.min@, self.max@, data.len())
        &&& self.grid.well_formed()
        &&& self.grid.sorted(ar)
        &&& self.grid.points() == data
    }

    /// The stage, as the walk sees it.
    pub open spec fn scene<'a, F>(&'a self, ar: &'a Arithmetic<F>) -> Scene<'a, D, F> {
        Scene { data: &self.data, nodes: &self.nodes, data_grid: &self.grid, ar }
    }

    /// Sets the stage.
    pub fn set<F: Fn(Op, Double, Double) -> Double>(
        data: &Vec<[Double; D]>,
        nodes: &Vec<[Double; D]>,
        ar: &Arithmetic<F>,
    ) -> (stage:
        Stage<D>)
        requires
            can_lay_out(*ar, data@, nodes@),
        ensures
            stage.is_set(*ar, data@, nodes@),
    {
        let (dmin, dmax): ([Double; D], [Double; D]) = bbox_of(data);
        let mut min: [Double; D] = dmin;
        let mut max: [Double; D] = dmax;
        for i in 0..nodes.len()
            invariant
                forall|d: int|
                    0 <= d < D ==> #[trigger] min@[d] == low_among(dmin@[d], nodes@, d, i as int),
                forall|d: int|
                    0 <= d < D ==> #[trigger] max@[d] == high_among(dmax@[d], nodes@, d, i as int),
        {
            let c: [Double; D] = nodes[i];
            for d in 0..D
                invariant
                    i < nodes.len(),
                    c == nodes@[i as int],
                    forall|e: int|
                        0 <= e < D ==> #[trigger] min@[e] == low_among(
                            dmin@[e],
                            nodes@,
                            e,
                            if e < d {
                                i + 1
                            } else {
                                i as int
                            },
                        ),
                    forall|e: int|
                        0 <= e < D ==> #[trigger] max@[e] == high_among(
                            dmax@[e],
                            nodes@,
                            e,
                            if e < d {
                                i + 1
                            } else {
                                i as int
                            },
                        ),
            {
                min[d] = min[d].min(c[d]);
                max[d] = max[d].max(c[d]);
            }
        }
        assert(is_extent(data@, nodes@, min, max));
        let mut grid: BucketGrid<D> = BucketGrid::new(min, max, data.len(), ar);
        assert(grid.points() =~= data@.take(0));
        assert(laid_out(*ar, grid, min@, max@, data@.len()));
        for i in 0..data.len()
            invariant
                ar.total(),
                data.len() < u32::MAX,
                grid.well_formed(),
                grid.sorted(*ar),
                grid.points() =~= data@.take(i as int),
                laid_out(*ar, grid, min@, max@, data@.len()),
        {
            grid.insert(data[i], ar);
        }
        assert(data@.take(data.len() as int) =~= data@);
        let mut all: Vec<[Double; D]> = copy_points(data);
        for i in 0..nodes.len()
            invariant
                all@ =~= data@ + nodes@.take(i as int),
        {
            all.push(nodes[i]);
        }
        assert(all@ =~= data@ + nodes@);
        Stage { data: copy_points(data), nodes: copy_points(nodes), all, min, max, grid }
    }

    /// An empty store for the nodes.
    pub fn node_store<F: Fn(Op, Double, Double) -> Double>(&self, ar: &Arithmetic<F>) -> (grid: BucketGrid<D>)
        requires
            self.is_set(*ar, self.data@, self.nodes@),
            can_lay_out(*ar, self.data@, self.nodes@),
        ensures
            grid.well_formed(),
            grid.points().len() == 0,
            laid_out(*ar, grid, self.min@, self.max@, self.nodes@.len()),
    {
        BucketGrid::new(self.min, self.max, self.nodes.len(), ar)
    }
}

/// Grids laid out over one box for one number of points have the same cells.
pub proof fn layout_is_unique<const D: usize, F: Fn(Op, Double, Double) -> Double>(
    ar: Arithmetic<F>,
    a: BucketGrid<D>,
    b: BucketGrid<D>,
    min: Seq<Double>,
    max: Seq<Double>,
    expected: nat,
)
    requires
        laid_out(ar, a, min, max, expected),
        laid_out(ar, b, min, max, expected),
    ensures
        a.corner() == b.corner(),
        a.size() == b.size(),
        a.shape() == b.shape(),
{
    let exts = extents_of(ar, min, max);
    let start = first_cell(ar, exts, expected);
    let i = choose|k: nat| #[trigger]
        settles_at(ar, exts, expected, k) && a.size() == doubled(ar, start, k);
    let j = choose|k: nat| #[trigger]
        settles_at(ar, exts, expected, k) && b.size() == doubled(ar, start, k);
    if i < j {
        assert(!fits(ar, exts, doubled(ar, start, i), expected));
    } else if j < i {
        assert(!fits(ar, exts, doubled(ar, start, j), expected));
    }
}

impl<const D: usize> Stage<D> {
    /// Stages set for the same data and nodes have the same box and cells.
    pub proof fn set_is_unique<F: Fn(Op, Double, Double) -> Double>(
        a: &Stage<D>,
        b: &Stage<D>,
        ar: Arithmetic<F>,
        data: Seq<[Double; D]>,
        nodes: Seq<[Double; D]>,
    )
        requires
            a.is_set(ar, data, nodes),
            b.is_set(ar, data, nodes),
        ensures
            a.min@ == b.min@,
            a.max@ == b.max@,
            a.grid.corner() == b.grid.corner(),
            a.grid.size() == b.grid.size(),
            a.grid.shape() == b.grid.shape(),
    {
        assert(a.min@ =~= b.min@);
        assert(a.max@ =~= b.max@);
        layout_is_unique(ar, a.grid, b.grid, a.min@, a.max@, data.len());
    }
}

/// State of the generator once the path is drawn.
pub open spec fn after_path(seed: u64, n: nat) -> Words {
    Words::seeded(seed).after((if n == 0 { 0 } else { n - 1 }) as nat)
}

/// A list with the members of `0..n` visits each node once.
pub proof fn lemma_path_visits_all(path: Seq<usize>, n: nat)
    requires
        path.to_multiset() == storage_order(n).to_multiset(),
        n <= usize::MAX,
    ensures
        visits_all(path, n),
{
    crate::simulation::lemma_same_multiset_members(path, n);
    let base = storage_order(n);
    assert(base.no_duplicates()) by {
        assert forall|a: int, b: int| 0 <= a < b < base.len() implies base[a] != base[b] by {}
    }
    base.lemma_multiset_has_no_duplicates();
    path.lemma_multiset_has_no_duplicates_conv();
}

/// The largest system of a neighborhood can be held in memory.
pub open spec fn systems_fit(q: Quotas, n_data: nat, n: nat) -> bool {
    holdable(q.most(n_data, n) + 1, q.most(n_data, n) + 1)
}

/// The walk of a simulation along a path with these draws gives `sim`.
pub open spec fn plays<const D: usize, F: Fn(Op, Double, Double) -> Double>(
    stage: &Stage<D>,
    ar: &Arithmetic<F>,
    grid: BucketGrid<D>,
    steps: Step,
    path: Seq<usize>,
    draws: Seq<Double>,
    data_values: Seq<Double>,
    q: Quotas,
    sim: Seq<Double>,
) -> bool {
    &&& grid.points().len() == 0
    &&& laid_out(*ar, grid, stage.min@, stage.max@, stage.nodes@.len())
    &&& sim.len() == path.len()
    &&& stage.scene(ar).walked(
        steps,
        sim,
        path.len() as int,
        path,
        draws,
        data_values,
        grid,
        q,
    )
}

/// The walk of a simulation along a path with these draws fails with `e`.
pub open spec fn stumbles<const D: usize, F: Fn(Op, Double, Double) -> Double>(
    stage: &Stage<D>,
    ar: &Arithmetic<F>,
    grid: BucketGrid<D>,
    steps: Step,
    path: Seq<usize>,
    draws: Seq<Double>,
    data_values: Seq<Double>,
    q: Quotas,
    e: GeostatError,
) -> bool {
    &&& grid.points().len() == 0
    &&& laid_out(*ar, grid, stage.min@, stage.max@, stage.nodes@.len())
    &&& exists|sim: Seq<Double>, t: int| #[trigger]
        stage.scene(ar).failed(steps, sim, t, e, path, draws, data_values, grid, q)
}

/// The stages are set for the same data and nodes.
pub open spec fn same_stage<const D: usize, F: Fn(Op, Double, Double) -> Double>(
    ar: Arithmetic<F>,
    a: &Stage<D>,
    b: &Stage<D>,
) -> bool {
    &&& a.is_set(ar, a.data@, a.nodes@)
    &&& b.is_set(ar, a.data@, a.nodes@)
}

proof fn lemma_same_places<const D: usize, F: Fn(Op, Double, Double) -> Double>(
    ar: &Arithmetic<F>,
    a: &Stage<D>,
    b: &Stage<D>,
    ga: BucketGrid<D>,
    gb: BucketGrid<D>,
)
    requires
        same_stage(*ar, a, b),
        laid_out(*ar, ga, a.min@, a.max@, a.nodes@.len()),
        laid_out(*ar, gb, b.min@, b.max@, b.nodes@.len()),
    ensures
        same_scene(a.scene(ar), b.scene(ar)),
        same_cells(ga, gb),
{
    Stage::set_is_unique(a, b, *ar, a.data@, a.nodes@);
    layout_is_unique(*ar, ga, gb, a.min@, a.max@, a.nodes@.len());
}

/// Data, nodes, path and draws determine what a walk gives.
pub proof fn play_is_unique<const D: usize, F: Fn(Op, Double, Double) -> Double>(
    a: &Stage<D>,
    b: &Stage<D>,
    ar: &Arithmetic<F>,
    ga: BucketGrid<D>,
    gb: BucketGrid<D>,
    steps: Step,
    path: Seq<usize>,
    draws: Seq<Double>,
    data_values: Seq<Double>,
    q: Quotas,
    sim1: Seq<Double>,
    sim2: Seq<Double>,
)
    requires
        decides(steps),
        same_stage(*ar, a, b),
        path.to_multiset() == storage_order(path.len()).to_multiset(),
        path.len() <= usize::MAX,
        plays(a, ar, ga, steps, path, draws, data_values, q, sim1),
        plays(b, ar, gb, steps, path, draws, data_values, q, sim2),
    ensures
        sim1 == sim2,
{
    let n = path.len() as int;
    lemma_same_places(ar, a, b, ga, gb);
    lemma_same_walk(
        a.scene(ar),
        b.scene(ar),
        ga,
        gb,
        steps,
        sim1,
        n,
        path,
        draws,
        data_values,
        q,
    );
    b.scene(ar).walk_is_unique(steps, sim1, sim2, n, path, draws, data_values, gb, q);
    crate::simulation::lemma_same_multiset_members(path, path.len());
    assert forall|i: int| 0 <= i < sim1.len() implies sim1[i] == sim2[i] by {
        assert(path.contains(i as usize));
        let u = choose|u: int| 0 <= u < path.len() && path[u] == i as usize;
        assert(sim1[path[u] as int] == sim2[path[u] as int]);
    }
    assert(sim1 =~= sim2);
}

/// A walk that gives values does not also fail.
pub proof fn play_excludes_failure<const D: usize, F: Fn(Op, Double, Double) -> Double>(
    a: &Stage<D>,
    b: &Stage<D>,
    ar: &Arithmetic<F>,
    ga: BucketGrid<D>,
    gb: BucketGrid<D>,
    steps: Step,
    path: Seq<usize>,
    draws: Seq<Double>,
    data_values: Seq<Double>,
    q: Quotas,
    sim: Seq<Double>,
    e: GeostatError,
)
    requires
        decides(steps),
        same_stage(*ar, a, b),
        plays(a, ar, ga, steps, path, draws, data_values, q, sim),
    ensures
        !stumbles(b, ar, gb, steps, path, draws, data_values, q, e),
{
    if stumbles(b, ar, gb, steps, path, draws, data_values, q, e) {
        lemma_same_places(ar, a, b, ga, gb);
        lemma_same_walk(
            a.scene(ar),
            b.scene(ar),
            ga,
            gb,
            steps,
            sim,
            path.len() as int,
            path,
            draws,
            data_values,
            q,
        );
        let (other, t) = choose|sim: Seq<Double>, t: int| #[trigger]
            b.scene(ar).failed(steps, sim, t, e, path, draws, data_values, gb, q);
        b.scene(ar).walk_fails_or_not(
            steps,
            sim,
            other,
            t,
            e,
            path,
            draws,
            data_values,
            gb,
            q,
        );
    }
}

} // verus!

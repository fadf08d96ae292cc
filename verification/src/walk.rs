//! The walk of sequential simulation: at each node of the path, gather the
//! nearest data and previously visited nodes, obtain a value, and let the node
//! join the conditioning set.

use vstd::prelude::*;

use crate::arith::{Arithmetic, Op};
use crate::bucket_grid::BucketGrid;
use crate::double::Double;
use crate::error::GeostatError;
use crate::kdtree::{limit, spread};
use crate::search::{computes, lemma_found_fit, search_result, Distance};

verus! {

/// Merge of two lists that ascend by distance: the nearer head comes first,
/// the datum where the distances are equal; nodes are shifted by the number
/// of data.
pub open spec fn merged(
    nd: Seq<usize>,
    nn: Seq<usize>,
    n_data: nat,
    dd: Distance,
    dn: Distance,
) -> Seq<usize>
    decreases nd.len() + nn.len(),
{
    if nd.len() == 0 && nn.len() == 0 {
        Seq::empty()
    } else if nd.len() > 0 && (nn.len() == 0 || dd(nd[0]).at_most(dn(nn[0]))) {
        seq![nd[0]] + merged(nd.drop_first(), nn, n_data, dd, dn)
    } else {
        seq![(n_data + nn[0]) as usize] + merged(nd, nn.drop_first(), n_data, dd, dn)
    }
}

/// Search limits of a simulation.
#[derive(Clone, Copy, Debug, PartialEq, Eq, Structural)]
pub struct Quotas {
    /// Most data per neighborhood; most points, where there is no quota of
    /// their own for nodes.
    pub max_neighbors: usize,
    /// Most previously simulated nodes, in addition to the data.
    pub max_node_neighbors: Option<usize>,
    /// Search radius.
    pub radius: Option<Double>,
}

impl Quotas {
    /// Most nodes that are looked for.
    pub open spec fn nodes(self) -> nat {
        match self.max_node_neighbors {
            Some(k) => k as nat,
            None => self.max_neighbors as nat,
        }
    }

    /// Most neighbors that there can be of `n_data` data and `n` nodes.
    pub open spec fn most(self, n_data: nat, n: nat) -> nat {
        let data = if self.max_neighbors < n_data {
            self.max_neighbors as nat
        } else {
            n_data
        };
        let nodes = if self.nodes() < n {
            self.nodes()
        } else {
            n
        };
        data + nodes
    }

    /// The merged list as far as it is used: without a quota of their own,
    /// nodes compete with the data for `max_neighbors` places.
    pub open spec fn kept(self, all: Seq<usize>) -> Seq<usize> {
        if self.max_node_neighbors is None && all.len() > self.max_neighbors {
            all.take(self.max_neighbors as int)
        } else {
            all
        }
    }
}

/// Coordinates of the visited nodes.
pub open spec fn visited_places<const D: usize>(
    nodes: Seq<[Double; D]>,
    visited: Seq<usize>,
) -> Seq<[Double; D]> {
    visited.map(|_j: int, i: usize| nodes[i as int])
}

/// Squared distances from a target to points, by index.
pub open spec fn away<const D: usize, F: Fn(Op, Double, Double) -> Double>(
    ar: Arithmetic<F>,
    target: [Double; D],
    pts: Seq<[Double; D]>,
) -> Distance {
    |i: usize| ar.distance2(target, pts[i as int])
}

/// Places of a simulation: data, nodes, and the grids they are looked up in.
pub struct Scene<'a, const D: usize, F> {
    /// Coordinates of the data.
    pub data: &'a Vec<[Double; D]>,
    /// Coordinates of the nodes.
    pub nodes: &'a Vec<[Double; D]>,
    /// The data, sorted into cells.
    pub data_grid: &'a BucketGrid<D>,
    /// Arithmetic.
    pub ar: &'a Arithmetic<F>,
}

impl<'a, const D: usize, F: Fn(Op, Double, Double) -> Double> Scene<'a, D, F> {
    /// The grid holds the data, and the arithmetic measures distances.
    pub open spec fn well_formed(&self) -> bool {
        &&& self.data_grid.well_formed()
        &&& self.data_grid.sorted(*self.ar)
        &&& self.data_grid.points() == self.data@
        &&& self.ar.ieee()
        &&& self.nodes@.len() < u32::MAX
        &&& self.data@.len() + self.nodes@.len() <= usize::MAX
    }

    /// `nb` is the merge of the data `nd` and the visited nodes `nn` found
    /// around `node`; the nodes were looked up in cells like those of `grid`.
    pub open spec fn gathered(
        &self,
        nb: Seq<usize>,
        nd: Seq<usize>,
        nn: Seq<usize>,
        node: usize,
        visited: Seq<usize>,
        grid: BucketGrid<D>,
        q: Quotas,
    ) -> bool {
        let target = self.nodes@[node as int];
        let seen = visited_places(self.nodes@, visited);
        &&& search_result(
            nd,
            q.max_neighbors as nat,
            spread(*self.ar, self.data@, target),
            self.data@.len(),
            limit(self.ar.square_radius(q.radius)),
            self.data_grid.bounds_hold(self.data@, target, *self.ar),
        )
        &&& search_result(
            nn,
            q.nodes(),
            spread(*self.ar, seen, target),
            visited.len(),
            limit(self.ar.square_radius(q.radius)),
            grid.bounds_hold(seen, target, *self.ar),
        )
        &&& nd == self.data_grid.nearest_among(
            self.data@,
            target,
            q.max_neighbors as nat,
            q.radius,
            *self.ar,
        )
        &&& nn == grid.nearest_among(seen, target, q.nodes(), q.radius, *self.ar)
        &&& nb == q.kept(
            merged(
                nd,
                nn,
                self.data@.len(),
                away(*self.ar, target, self.data@),
                away(*self.ar, target, seen),
            ),
        )
    }

    /// `nb` is the neighborhood of `node` once the nodes `visited` have values.
    pub open spec fn neighborhood(
        &self,
        nb: Seq<usize>,
        node: usize,
        visited: Seq<usize>,
        grid: BucketGrid<D>,
        q: Quotas,
    ) -> bool {
        exists|nd: Seq<usize>, nn: Seq<usize>| #[trigger]
            self.gathered(nb, nd, nn, node, visited, grid, q)
    }

    /// Step `t` of the walk asked `step` for the value of node `path[t]` with
    /// neighborhood `nb`, and `r` came back.
    pub open spec fn asked(
        &self,
        step: Step,
        sim: Seq<Double>,
        t: int,
        nb: Seq<usize>,
        r: Result<Double, GeostatError>,
        path: Seq<usize>,
        draws: Seq<Double>,
        data_values: Seq<Double>,
        grid: BucketGrid<D>,
        q: Quotas,
    ) -> bool {
        &&& self.neighborhood(nb, path[t], path.take(t), grid, q)
        &&& step(
            path[t],
            places_of(nb, data_values.len(), path.take(t)),
            values_of(nb, conditioning(data_values, sim, path.take(t))),
            draws[t],
            r,
        )
    }

    /// Node `path[t]` has the value that `step` gave for it.
    pub open spec fn stepped(
        &self,
        step: Step,
        sim: Seq<Double>,
        t: int,
        path: Seq<usize>,
        draws: Seq<Double>,
        data_values: Seq<Double>,
        grid: BucketGrid<D>,
        q: Quotas,
    ) -> bool {
        exists|nb: Seq<usize>| #[trigger]
            self.asked(
                step,
                sim,
                t,
                nb,
                Ok(sim[path[t] as int]),
                path,
                draws,
                data_values,
                grid,
                q,
            )
    }

    /// The first `t` nodes of the path have the values that `step` gave for
    /// them.
    pub open spec fn walked(
        &self,
        step: Step,
        sim: Seq<Double>,
        t: int,
        path: Seq<usize>,
        draws: Seq<Double>,
        data_values: Seq<Double>,
        grid: BucketGrid<D>,
        q: Quotas,
    ) -> bool {
        forall|u: int|
            0 <= u < t ==> #[trigger] self.stepped(
                step,
                sim,
                u,
                path,
                draws,
                data_values,
                grid,
                q,
            )
    }

    /// Step `t` failed with `e`, after `t` steps that gave the values `sim`.
    pub open spec fn failed(
        &self,
        step: Step,
        sim: Seq<Double>,
        t: int,
        e: GeostatError,
        path: Seq<usize>,
        draws: Seq<Double>,
        data_values: Seq<Double>,
        grid: BucketGrid<D>,
        q: Quotas,
    ) -> bool {
        &&& 0 <= t < path.len()
        &&& self.walked(step, sim, t, path, draws, data_values, grid, q)
        &&& exists|nb: Seq<usize>| #[trigger]
            self.asked(step, sim, t, nb, Err(e), path, draws, data_values, grid, q)
    }

    proof fn lemma_walked_frame(
        &self,
        step: Step,
        sim: Seq<Double>,
        sim2: Seq<Double>,
        t: int,
        path: Seq<usize>,
        draws: Seq<Double>,
        data_values: Seq<Double>,
        grid: BucketGrid<D>,
        q: Quotas,
    )
        requires
            0 <= t <= path.len(),
            self.walked(step, sim, t, path, draws, data_values, grid, q),
            forall|u: int| 0 <= u < t ==> sim2[#[trigger] path[u] as int] == sim[path[u] as int],
        ensures
            self.walked(step, sim2, t, path, draws, data_values, grid, q),
    {
        assert forall|u: int| 0 <= u < t implies #[trigger] self.stepped(
            step,
            sim2,
            u,
            path,
            draws,
            data_values,
            grid,
            q,
        ) by {
            assert(self.stepped(step, sim, u, path, draws, data_values, grid, q));
            let nb = choose|nb: Seq<usize>| #[trigger]
                self.asked(
                    step,
                    sim,
                    u,
                    nb,
                    Ok(sim[path[u] as int]),
                    path,
                    draws,
                    data_values,
                    grid,
                    q,
                );
            assert(conditioning(data_values, sim2, path.take(u)) =~= conditioning(
                data_values,
                sim,
                path.take(u),
            ));
            assert(self.asked(
                step,
                sim2,
                u,
                nb,
                Ok(sim2[path[u] as int]),
                path,
                draws,
                data_values,
                grid,
                q,
            ));
        }
    }
}

/// The values that condition the step after `visited`: those of the data, then
/// those of the visited nodes.
pub open spec fn conditioning(
    data_values: Seq<Double>,
    sim: Seq<Double>,
    visited: Seq<usize>,
) -> Seq<Double> {
    data_values + Seq::new(visited.len(), |j: int| sim[visited[j] as int])
}

/// What a step may give: node, places and values of its neighborhood, draw,
/// result.
pub type Step = spec_fn(usize, Seq<usize>, Seq<Double>, Double, Result<Double, GeostatError>) -> bool;

/// The place of each neighbor: data by their index, nodes by theirs, shifted
/// by the number of data.
pub open spec fn places_of(nb: Seq<usize>, n_data: nat, visited: Seq<usize>) -> Seq<usize> {
    nb.map(
        |_k: int, i: usize|
            if i < n_data {
                i
            } else {
                (n_data + visited[i - n_data]) as usize
            },
    )
}

/// The value of each neighbor.
pub open spec fn values_of(nb: Seq<usize>, cond: Seq<Double>) -> Seq<Double> {
    nb.map(|_k: int, i: usize| cond[i as int])
}

/// `path` visits each of the `n` nodes once.
pub open spec fn visits_all(path: Seq<usize>, n: nat) -> bool {
    &&& path.len() == n
    &&& path.no_duplicates()
    &&& forall|j: int| 0 <= j < n ==> (#[trigger] path[j]) < n
}

/// Merges data and nodes found around a node by their distances.
fn merge_neighbors<F: Fn(usize) -> Double, G: Fn(usize) -> Double>(
    nd: &Vec<usize>,
    nn: &Vec<usize>,
    n_data: usize,
    n_nodes: usize,
    data_dist: &F,
    node_dist: &G,
    Ghost(dd): Ghost<Distance>,
    Ghost(dn): Ghost<Distance>,
) -> (nb: Vec<usize>)
    requires
        n_data + n_nodes <= usize::MAX,
        computes(*data_dist, n_data as nat, dd),
        computes(*node_dist, n_nodes as nat, dn),
        forall|a: int| 0 <= a < nd.len() ==> (#[trigger] nd@[a]) < n_data,
        forall|b: int| 0 <= b < nn.len() ==> (#[trigger] nn@[b]) < n_nodes,
    ensures
        nb@ == merged(nd@, nn@, n_data as nat, dd, dn),
{
    let mut nb: Vec<usize> = Vec::new();
    let mut a: usize = 0;
    let mut b: usize = 0;
    let ghost whole = merged(nd@, nn@, n_data as nat, dd, dn);
    assert(nd@.skip(0) =~= nd@);
    assert(nn@.skip(0) =~= nn@);
    while a < nd.len() || b < nn.len()
        invariant
            a <= nd.len(),
            b <= nn.len(),
            n_data + n_nodes <= usize::MAX,
            computes(*data_dist, n_data as nat, dd),
            computes(*node_dist, n_nodes as nat, dn),
            forall|i: int| 0 <= i < nd.len() ==> (#[trigger] nd@[i]) < n_data,
            forall|j: int| 0 <= j < nn.len() ==> (#[trigger] nn@[j]) < n_nodes,
            whole == nb@ + merged(nd@.skip(a as int), nn@.skip(b as int), n_data as nat, dd, dn),
        decreases nd.len() + nn.len() - a - b,
    {
        let take_data: bool = if a == nd.len() {
            false
        } else if b == nn.len() {
            true
        } else {
            let da: Double = data_dist(nd[a]);
            let db: Double = node_dist(nn[b]);
            da.le(db)
        };
        let ghost before = nb@;
        proof {
            if a < nd.len() {
                assert(nd@.skip(a as int).drop_first() =~= nd@.skip(a + 1));
            }
            if b < nn.len() {
                assert(nn@.skip(b as int).drop_first() =~= nn@.skip(b + 1));
            }
        }
        if take_data {
            nb.push(nd[a]);
            a = a + 1;
        } else {
            nb.push(n_data + nn[b]);
            b = b + 1;
        }
        assert(whole =~= nb@ + merged(
            nd@.skip(a as int),
            nn@.skip(b as int),
            n_data as nat,
            dd,
            dn,
        ));
    }
    assert(nb@ =~= whole);
    nb
}

/// A neighborhood that `step` is asked about.
pub open spec fn step_input(
    places: Seq<usize>,
    values: Seq<Double>,
    node: usize,
    n_data: nat,
    n: nat,
    most: nat,
) -> bool {
    &&& node < n
    &&& places.len() == values.len()
    &&& places.len() <= most
    &&& forall|i: int| 0 <= i < places.len() ==> (#[trigger] places[i]) < n_data + n
}

proof fn lemma_merged_in_range(
    nd: Seq<usize>,
    nn: Seq<usize>,
    n_data: nat,
    n_nodes: nat,
    dd: Distance,
    dn: Distance,
)
    requires
        n_data + n_nodes <= usize::MAX,
        forall|i: int| 0 <= i < nd.len() ==> (#[trigger] nd[i]) < n_data,
        forall|i: int| 0 <= i < nn.len() ==> (#[trigger] nn[i]) < n_nodes,
    ensures
        forall|i: int|
            0 <= i < merged(nd, nn, n_data, dd, dn).len() ==> (#[trigger] merged(
                nd,
                nn,
                n_data,
                dd,
                dn,
            )[i]) < n_data + n_nodes,
        merged(nd, nn, n_data, dd, dn).len() == nd.len() + nn.len(),
    decreases nd.len() + nn.len(),
{
    if nd.len() == 0 && nn.len() == 0 {
    } else if nd.len() > 0 && (nn.len() == 0 || dd(nd[0]).at_most(dn(nn[0]))) {
        let rest = merged(nd.drop_first(), nn, n_data, dd, dn);
        lemma_merged_in_range(nd.drop_first(), nn, n_data, n_nodes, dd, dn);
        assert forall|i: int| 0 <= i < rest.len() + 1 implies (#[trigger] (seq![nd[0]] + rest)[i])
            < n_data + n_nodes by {
            if i > 0 {
                assert(rest[i - 1] < n_data + n_nodes);
            }
        }
    } else {
        let rest = merged(nd, nn.drop_first(), n_data, dd, dn);
        let first = (n_data + nn[0]) as usize;
        lemma_merged_in_range(nd, nn.drop_first(), n_data, n_nodes, dd, dn);
        assert forall|i: int| 0 <= i < rest.len() + 1 implies (#[trigger] (seq![first] + rest)[i])
            < n_data + n_nodes by {
            if i > 0 {
                assert(rest[i - 1] < n_data + n_nodes);
            }
        }
    }
}

/// Grids with the same cells give the same bounds.
proof fn lemma_same_bounds<const D: usize, F: Fn(Op, Double, Double) -> Double>(
    a: BucketGrid<D>,
    b: BucketGrid<D>,
    pts: Seq<[Double; D]>,
    target: [Double; D],
    ar: Arithmetic<F>,
)
    requires
        a.corner() == b.corner(),
        a.size() == b.size(),
        a.shape() == b.shape(),
        a.bounds_hold(pts, target, ar),
    ensures
        b.bounds_hold(pts, target, ar),
{
    assert forall|i: usize, ring: usize|
        #![trigger spread(ar, pts, target)(i), Double::count(ring as nat)]
        i < pts.len() && ring < 2 * crate::double::HIDDEN && ring <= crate::buckets::chebyshev(
            b.cell_of(pts[i as int], ar),
            b.cell_of(target, ar),
            D as int,
        ) implies spread(ar, pts, target)(i).nan() || crate::bucket_grid::ring_bound(
        ar,
        ring as nat,
        b.size(),
    ).at_most(spread(ar, pts, target)(i)) by {
        assert(a.cell_of(pts[i as int], ar) == b.cell_of(pts[i as int], ar));
        assert(a.cell_of(target, ar) == b.cell_of(target, ar));
    }
}

/// Grids with the same cells find the same points.
proof fn lemma_same_search<const D: usize, F: Fn(Op, Double, Double) -> Double>(
    a: BucketGrid<D>,
    b: BucketGrid<D>,
    pts: Seq<[Double; D]>,
    target: [Double; D],
    k: nat,
    radius: Option<Double>,
    ar: Arithmetic<F>,
)
    requires
        a.corner() == b.corner(),
        a.size() == b.size(),
        a.shape() == b.shape(),
    ensures
        a.nearest_among(pts, target, k, radius, ar) == b.nearest_among(pts, target, k, radius, ar),
{
    assert(Seq::new(pts.len(), |i: int| a.cell_of(pts[i], ar)) =~= Seq::new(
        pts.len(),
        |i: int| b.cell_of(pts[i], ar),
    ));
    assert(a.ring_bounds(ar) =~= b.ring_bounds(ar));
}

/// The grids have the same cells.
pub open spec fn same_cells<const D: usize>(a: BucketGrid<D>, b: BucketGrid<D>) -> bool {
    &&& a.corner() == b.corner()
    &&& a.size() == b.size()
    &&& a.shape() == b.shape()
}

/// The scenes have the same places, sorted into the same cells.
pub open spec fn same_scene<'a, 'b, const D: usize, F>(
    a: Scene<'a, D, F>,
    b: Scene<'b, D, F>,
) -> bool {
    &&& a.data@ == b.data@
    &&& a.nodes@ == b.nodes@
    &&& *a.ar == *b.ar
    &&& same_cells(*a.data_grid, *b.data_grid)
}

proof fn lemma_same_neighborhood<'a, 'b, const D: usize, F: Fn(Op, Double, Double) -> Double>(
    a: Scene<'a, D, F>,
    b: Scene<'b, D, F>,
    ga: BucketGrid<D>,
    gb: BucketGrid<D>,
    nb: Seq<usize>,
    node: usize,
    visited: Seq<usize>,
    q: Quotas,
)
    requires
        same_scene(a, b),
        same_cells(ga, gb),
        a.neighborhood(nb, node, visited, ga, q),
    ensures
        b.neighborhood(nb, node, visited, gb, q),
{
    let (nd, nn) = choose|nd: Seq<usize>, nn: Seq<usize>| #[trigger]
        a.gathered(nb, nd, nn, node, visited, ga, q);
    let target = a.nodes@[node as int];
    let seen = visited_places(a.nodes@, visited);
    let ar = *a.ar;
    lemma_same_search(
        *a.data_grid,
        *b.data_grid,
        a.data@,
        target,
        q.max_neighbors as nat,
        q.radius,
        ar,
    );
    lemma_same_search(ga, gb, seen, target, q.nodes(), q.radius, ar);
    if b.data_grid.bounds_hold(a.data@, target, ar) {
        lemma_same_bounds(*b.data_grid, *a.data_grid, a.data@, target, ar);
    }
    if gb.bounds_hold(seen, target, ar) {
        lemma_same_bounds(gb, ga, seen, target, ar);
    }
    assert(b.gathered(nb, nd, nn, node, visited, gb, q));
}

/// What was asked in one scene was asked in a scene with the same places.
pub proof fn lemma_same_question<'a, 'b, const D: usize, F: Fn(Op, Double, Double) -> Double>(
    a: Scene<'a, D, F>,
    b: Scene<'b, D, F>,
    ga: BucketGrid<D>,
    gb: BucketGrid<D>,
    step: Step,
    sim: Seq<Double>,
    t: int,
    r: Result<Double, GeostatError>,
    path: Seq<usize>,
    draws: Seq<Double>,
    data_values: Seq<Double>,
    q: Quotas,
)
    requires
        same_scene(a, b),
        same_cells(ga, gb),
        exists|nb: Seq<usize>| #[trigger]
            a.asked(step, sim, t, nb, r, path, draws, data_values, ga, q),
    ensures
        exists|nb: Seq<usize>| #[trigger]
            b.asked(step, sim, t, nb, r, path, draws, data_values, gb, q),
{
    let nb = choose|nb: Seq<usize>| #[trigger]
        a.asked(step, sim, t, nb, r, path, draws, data_values, ga, q);
    lemma_same_neighborhood(a, b, ga, gb, nb, path[t], path.take(t), q);
    assert(b.asked(step, sim, t, nb, r, path, draws, data_values, gb, q));
}

/// A walk in one scene is a walk in a scene with the same places.
pub proof fn lemma_same_walk<'a, 'b, const D: usize, F: Fn(Op, Double, Double) -> Double>(
    a: Scene<'a, D, F>,
    b: Scene<'b, D, F>,
    ga: BucketGrid<D>,
    gb: BucketGrid<D>,
    step: Step,
    sim: Seq<Double>,
    t: int,
    path: Seq<usize>,
    draws: Seq<Double>,
    data_values: Seq<Double>,
    q: Quotas,
)
    requires
        same_scene(a, b),
        same_cells(ga, gb),
        a.walked(step, sim, t, path, draws, data_values, ga, q),
    ensures
        b.walked(step, sim, t, path, draws, data_values, gb, q),
{
    assert forall|u: int| 0 <= u < t implies #[trigger] b.stepped(
        step,
        sim,
        u,
        path,
        draws,
        data_values,
        gb,
        q,
    ) by {
        assert(a.stepped(step, sim, u, path, draws, data_values, ga, q));
        lemma_same_question(
            a,
            b,
            ga,
            gb,
            step,
            sim,
            u,
            Ok(sim[path[u] as int]),
            path,
            draws,
            data_values,
            q,
        );
    }
}

/// A step that gives a value gives no other, and does not fail, on the same node,
/// neighborhood and draw.
pub open spec fn decides(step: Step) -> bool {
    forall|
        node: usize,
        places: Seq<usize>,
        values: Seq<Double>,
        draw: Double,
        z: Double,
        r: Result<Double, GeostatError>,
    |
        #![trigger step(node, places, values, draw, Ok(z)), step(node, places, values, draw, r)]
        step(node, places, values, draw, Ok(z)) && step(node, places, values, draw, r) ==> r == Ok::<
            Double,
            GeostatError,
        >(z)
}

impl<'a, const D: usize, F: Fn(Op, Double, Double) -> Double> Scene<'a, D, F> {
    /// The neighborhood of a node is one list of points.
    pub proof fn neighborhood_is_unique(
        &self,
        nb1: Seq<usize>,
        nb2: Seq<usize>,
        node: usize,
        visited: Seq<usize>,
        grid: BucketGrid<D>,
        q: Quotas,
    )
        requires
            self.neighborhood(nb1, node, visited, grid, q),
            self.neighborhood(nb2, node, visited, grid, q),
        ensures
            nb1 == nb2,
    {
    }

    /// Two walks along one path with the same draws give every node the same value.
    pub proof fn walk_is_unique(
        &self,
        step: Step,
        sim1: Seq<Double>,
        sim2: Seq<Double>,
        t: int,
        path: Seq<usize>,
        draws: Seq<Double>,
        data_values: Seq<Double>,
        grid: BucketGrid<D>,
        q: Quotas,
    )
        requires
            decides(step),
            0 <= t <= path.len(),
            self.walked(step, sim1, t, path, draws, data_values, grid, q),
            self.walked(step, sim2, t, path, draws, data_values, grid, q),
        ensures
            forall|u: int|
                0 <= u < t ==> sim1[#[trigger] path[u] as int] == sim2[path[u] as int],
        decreases t,
    {
        if t > 0 {
            let s = t - 1;
            self.walk_is_unique(step, sim1, sim2, s, path, draws, data_values, grid, q);
            assert(self.stepped(step, sim1, s, path, draws, data_values, grid, q));
            assert(self.stepped(step, sim2, s, path, draws, data_values, grid, q));
            self.lemma_same_answer(
                step,
                sim1,
                sim2,
                s,
                Ok(sim2[path[s] as int]),
                path,
                draws,
                data_values,
                grid,
                q,
            );
        }
    }

    /// Where two walks agree so far and one gives the next node a value, the other
    /// gets the same answer for it.
    proof fn lemma_same_answer(
        &self,
        step: Step,
        sim1: Seq<Double>,
        sim2: Seq<Double>,
        t: int,
        r: Result<Double, GeostatError>,
        path: Seq<usize>,
        draws: Seq<Double>,
        data_values: Seq<Double>,
        grid: BucketGrid<D>,
        q: Quotas,
    )
        requires
            decides(step),
            0 <= t < path.len(),
            forall|u: int|
                0 <= u < t ==> sim1[#[trigger] path[u] as int] == sim2[path[u] as int],
            self.stepped(step, sim1, t, path, draws, data_values, grid, q),
            exists|nb: Seq<usize>| #[trigger]
                self.asked(step, sim2, t, nb, r, path, draws, data_values, grid, q),
        ensures
            r == Ok::<Double, GeostatError>(sim1[path[t] as int]),
    {
        let r1: Result<Double, GeostatError> = Ok(sim1[path[t] as int]);
        let nb1 = choose|nb: Seq<usize>| #[trigger]
            self.asked(step, sim1, t, nb, r1, path, draws, data_values, grid, q);
        let nb2 = choose|nb: Seq<usize>| #[trigger]
            self.asked(step, sim2, t, nb, r, path, draws, data_values, grid, q);
        self.neighborhood_is_unique(nb1, nb2, path[t], path.take(t), grid, q);
        assert(conditioning(data_values, sim1, path.take(t)) =~= conditioning(
            data_values,
            sim2,
            path.take(t),
        ));
    }

    /// A walk that gives every node a value does not fail along the same path with
    /// the same draws.
    pub proof fn walk_fails_or_not(
        &self,
        step: Step,
        sim: Seq<Double>,
        other: Seq<Double>,
        t: int,
        e: GeostatError,
        path: Seq<usize>,
        draws: Seq<Double>,
        data_values: Seq<Double>,
        grid: BucketGrid<D>,
        q: Quotas,
    )
        requires
            decides(step),
            self.walked(step, sim, path.len() as int, path, draws, data_values, grid, q),
        ensures
            !self.failed(step, other, t, e, path, draws, data_values, grid, q),
    {
        if self.failed(step, other, t, e, path, draws, data_values, grid, q) {
            assert(self.walked(step, sim, t, path, draws, data_values, grid, q)) by {
                assert forall|u: int| 0 <= u < t implies #[trigger] self.stepped(
                    step,
                    sim,
                    u,
                    path,
                    draws,
                    data_values,
                    grid,
                    q,
                ) by {}
            }
            self.walk_is_unique(step, sim, other, t, path, draws, data_values, grid, q);
            assert(self.stepped(step, sim, t, path, draws, data_values, grid, q));
            self.lemma_same_answer(
                step,
                sim,
                other,
                t,
                Err(e),
                path,
                draws,
                data_values,
                grid,
                q,
            );
        }
    }
}

/// Walks the path: `step(node, places, values, draw)` gives the value of each
/// node in turn. The neighborhood lists data by their index and visited nodes
/// by theirs, shifted by the number of data.
pub(crate) fn walk_by<
    const D: usize,
    F: Fn(Op, Double, Double) -> Double,
    S: Fn(usize, &Vec<usize>, &Vec<Double>, Double) -> Result<Double, GeostatError>,
>(
    scene: &Scene<D, F>,
    node_grid: BucketGrid<D>,
    data_values: &Vec<Double>,
    path: &Vec<usize>,
    draws: &Vec<Double>,
    q: Quotas,
    step: &S,
    Ghost(rel): Ghost<Step>,
) -> (r: Result<Vec<Double>, GeostatError>)
    requires
        scene.well_formed(),
        node_grid.well_formed(),
        node_grid.points().len() == 0,
        scene.data@.len() == data_values.len(),
        scene.nodes@.len() == path.len(),
        visits_all(path@, path@.len()),
        draws.len() == path.len(),
        forall|node: usize, p: &Vec<usize>, v: &Vec<Double>, draw: Double|
            step_input(
                p@,
                v@,
                node,
                data_values@.len(),
                path@.len(),
                q.most(data_values@.len(), path@.len()),
            ) ==> #[trigger] call_requires(*step, (node, p, v, draw)),
        forall|
            node: usize,
            p: &Vec<usize>,
            v: &Vec<Double>,
            draw: Double,
            out: Result<Double, GeostatError>,
        | #[trigger]
            call_ensures(*step, (node, p, v, draw), out) ==> rel(node, p@, v@, draw, out),
    ensures
        r matches Ok(sim) ==> sim.len() == path.len() && scene.walked(
            rel,
            sim@,
            path@.len() as int,
            path@,
            draws@,
            data_values@,
            node_grid,
            q,
        ),
        r matches Err(e) ==> exists|sim: Seq<Double>, t: int| #[trigger]
            scene.failed(rel, sim, t, e, path@, draws@, data_values@, node_grid, q),
{
    let n: usize = path.len();
    let n_data: usize = data_values.len();
    let ar: &Arithmetic<F> = scene.ar;
    let data: &Vec<[Double; D]> = scene.data;
    let nodes: &Vec<[Double; D]> = scene.nodes;
    let ghost grid0 = node_grid;
    let mut grid: BucketGrid<D> = node_grid;
    let nodmax: usize = match q.max_node_neighbors {
        Some(k) => k,
        None => q.max_neighbors,
    };
    let mut cond: Vec<Double> = Vec::new();
    for i in 0..n_data
        invariant
            n_data == data_values.len(),
            cond@ =~= data_values@.take(i as int),
    {
        cond.push(data_values[i]);
    }
    let mut sim: Vec<Double> = Vec::new();
    for i in 0..n
        invariant
            sim.len() == i,
    {
        sim.push(Double::zero());
    }
    assert(cond@ =~= conditioning(data_values@, sim@, path@.take(0)));
    assert(grid.points() =~= visited_places(nodes@, path@.take(0)));
    for t in 0..n
        invariant
            n == path.len(),
            n_data == data_values.len(),
            scene.well_formed(),
            ar == scene.ar,
            data == scene.data,
            nodes == scene.nodes,
            data.len() == n_data,
            nodes.len() == n,
            sim.len() == n,
            draws.len() == n,
            visits_all(path@, n as nat),
            grid.well_formed(),
            grid.sorted(*ar),
            grid.corner() == grid0.corner(),
            grid.size() == grid0.size(),
            grid.shape() == grid0.shape(),
            grid0 == node_grid,
            grid.points() == visited_places(nodes@, path@.take(t as int)),
            nodmax == q.nodes(),
            forall|node: usize, p: &Vec<usize>, v: &Vec<Double>, draw: Double|
                step_input(
                    p@,
                    v@,
                    node,
                    n_data as nat,
                    n as nat,
                    q.most(n_data as nat, n as nat),
                ) ==> #[trigger] call_requires(*step, (node, p, v, draw)),
            forall|
                node: usize,
                p: &Vec<usize>,
                v: &Vec<Double>,
                draw: Double,
                out: Result<Double, GeostatError>,
            | #[trigger]
                call_ensures(*step, (node, p, v, draw), out) ==> rel(node, p@, v@, draw, out),
            cond@ == conditioning(data_values@, sim@, path@.take(t as int)),
            scene.walked(rel, sim@, t as int, path@, draws@, data_values@, grid0, q),
    {
        let node: usize = path[t];
        let target: [Double; D] = nodes[node];
        let ghost visited = path@.take(t as int);
        let ghost seen = visited_places(nodes@, visited);
        let nd: Vec<usize> = scene.data_grid.k_nearest(target, q.max_neighbors, q.radius, ar);
        let nn: Vec<usize> = grid.k_nearest(target, nodmax, q.radius, ar);
        let data_dist = |i: usize| -> (r: Double)
            requires
                i < data.len(),
                ar.total(),
            ensures
                r == ar.distance2(target, data@[i as int]),
            { ar.dist2(&target, &data[i]) };
        let node_dist = |j: usize| -> (r: Double)
            requires
                j < t,
                t < path.len(),
                path@[j as int] < nodes.len(),
                ar.total(),
            ensures
                r == ar.distance2(target, nodes@[path@[j as int] as int]),
            { ar.dist2(&target, &nodes[path[j]]) };
        let ghost dd = away(*ar, target, data@);
        let ghost dn = away(*ar, target, seen);
        proof {
            assert forall|i: usize| i < n_data implies (#[trigger] dd(i)).nan() || !dd(
                i,
            ).negative() by {
                ar.lemma_gap2_sign(target@, data@[i as int]@, D as int);
            }
            assert forall|j: usize| j < t implies (#[trigger] dn(j)).nan() || !dn(
                j,
            ).negative() by {
                ar.lemma_gap2_sign(target@, seen[j as int]@, D as int);
            }
            assert(computes(data_dist, n_data as nat, dd));
            assert forall|j: usize| j < t implies #[trigger] call_requires(node_dist, (j,)) by {
                assert(path@[j as int] < n);
            }
            assert(computes(node_dist, t as nat, dn));
            if grid0.bounds_hold(seen, target, *ar) {
                lemma_same_bounds(grid0, grid, seen, target, *ar);
            }
            lemma_same_search(grid0, grid, seen, target, nodmax as nat, q.radius, *ar);
            assert(search_result(
                nn@,
                q.nodes(),
                spread(*ar, seen, target),
                visited.len(),
                limit(ar.square_radius(q.radius)),
                grid0.bounds_hold(seen, target, *ar),
            ));
        }
        let mut nb: Vec<usize> = merge_neighbors(
            &nd,
            &nn,
            n_data,
            t,
            &data_dist,
            &node_dist,
            Ghost(dd),
            Ghost(dn),
        );
        proof {
            lemma_merged_in_range(nd@, nn@, n_data as nat, t as nat, dd, dn);
            let r2 = limit(ar.square_radius(q.radius));
            lemma_found_fit(
                nd@,
                q.max_neighbors as nat,
                spread(*ar, data@, target),
                n_data as nat,
                r2,
            );
            lemma_found_fit(nn@, q.nodes(), spread(*ar, seen, target), t as nat, r2);
        }
        if q.max_node_neighbors.is_none() && nb.len() > q.max_neighbors {
            nb.truncate(q.max_neighbors);
        }
        proof {
            assert(scene.gathered(nb@, nd@, nn@, node, visited, grid0, q));
            assert(scene.neighborhood(nb@, node, visited, grid0, q));
        }
        let mut places: Vec<usize> = Vec::new();
        let mut values: Vec<Double> = Vec::new();
        for k in 0..nb.len()
            invariant
                t < n,
                n == path.len(),
                n_data + n <= usize::MAX,
                cond.len() == n_data + t,
                visited == path@.take(t as int),
                visits_all(path@, n as nat),
                forall|i: int| 0 <= i < nb.len() ==> (#[trigger] nb@[i]) < n_data + t,
                places@ =~= places_of(nb@.take(k as int), n_data as nat, visited),
                values@ =~= values_of(nb@.take(k as int), cond@),
                forall|i: int| 0 <= i < places.len() ==> (#[trigger] places@[i]) < n_data + n,
        {
            let i: usize = nb[k];
            assert(nb@[k as int] < n_data + t);
            if i < n_data {
                places.push(i);
            } else {
                assert(visited[i - n_data] == path@[i - n_data]);
                places.push(n_data + path[i - n_data]);
            }
            values.push(cond[i]);
        }
        assert(nb@.take(nb.len() as int) =~= nb@);
        let out: Result<Double, GeostatError> = step(node, &places, &values, draws[t]);
        match out {
            Err(e) => {
                proof {
                    assert(scene.asked(
                        rel,
                        sim@,
                        t as int,
                        nb@,
                        Err(e),
                        path@,
                        draws@,
                        data_values@,
                        grid0,
                        q,
                    ));
                    assert(scene.failed(
                        rel,
                        sim@,
                        t as int,
                        e,
                        path@,
                        draws@,
                        data_values@,
                        grid0,
                        q,
                    ));
                }
                return Err(e);
            },
            Ok(z) => {
                let ghost sim0 = sim@;
                let ghost cond0 = cond;
                let ghost before = grid;
                sim.set(node, z);
                grid.insert(target, ar);
                cond.push(z);
                proof {
                    scene.lemma_walked_frame(
                        rel,
                        sim0,
                        sim@,
                        t as int,
                        path@,
                        draws@,
                        data_values@,
                        grid0,
                        q,
                    );
                    assert(conditioning(data_values@, sim@, visited) =~= conditioning(
                        data_values@,
                        sim0,
                        visited,
                    ));
                    assert(scene.asked(
                        rel,
                        sim@,
                        t as int,
                        nb@,
                        Ok(sim@[path@[t as int] as int]),
                        path@,
                        draws@,
                        data_values@,
                        grid0,
                        q,
                    ));
                    assert(scene.stepped(
                        rel,
                        sim@,
                        t as int,
                        path@,
                        draws@,
                        data_values@,
                        grid0,
                        q,
                    ));
                    let more = path@.take(t + 1);
                    assert(cond@ =~= conditioning(data_values@, sim@, more)) by {
                        assert forall|j: int| 0 <= j < t + 1 implies cond@[n_data + j]
                            == sim@[more[j] as int] by {
                            if j < t {
                                assert(cond0@[n_data + j] == sim0[visited[j] as int]);
                                assert(path@[j] != path@[t as int]);
                            }
                        }
                    }
                    assert(grid.points() =~= visited_places(nodes@, more));
                }
            },
        }
    }
    Ok(sim)
}

} // verus!

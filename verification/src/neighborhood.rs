//! Conditioning points of a target: all data points, or the nearest ones.

use vstd::prelude::*;

use crate::arith::{Arithmetic, Op};
use crate::data::{copy_points, finite_points};
use crate::double::Double;
use crate::kdtree::{limit, spread, KdTree};
use crate::search::{k_nearest_of, lemma_found_fit, nearest_points_agree};

verus! {

/// All positions below `n`, ascending.
pub open spec fn all_below(n: nat) -> Seq<usize> {
    Seq::new(n, |i: int| i as usize)
}

/// All positions below `n`, ascending.
pub fn count_up(n: usize) -> (v: Vec<usize>)
    ensures
        v@ == all_below(n as nat),
{
    let mut v: Vec<usize> = Vec::new();
    for i in 0..n
        invariant
            v.len() == i,
            forall|j: int| 0 <= j < i ==> #[trigger] v@[j] == j,
    {
        v.push(i);
    }
    assert(v@ =~= all_below(n as nat));
    v
}

/// `nb` are the conditioning points of a target: all points in storage order
/// without a limit, otherwise the nearest within the radius, nearest first.
pub open spec fn conditions<const D: usize, F: Fn(Op, Double, Double) -> Double>(
    ar: Arithmetic<F>,
    places: Seq<[Double; D]>,
    max_neighbors: Option<usize>,
    radius: Option<Double>,
    target: [Double; D],
    nb: Seq<usize>,
) -> bool {
    if max_neighbors is None && radius is None {
        nb == all_below(places.len())
    } else {
        let k = match max_neighbors {
            Some(k) => k as nat,
            None => places.len(),
        };
        k_nearest_of(
            nb,
            k,
            spread(ar, places, target),
            places.len(),
            limit(ar.square_radius(radius)),
        )
    }
}

/// No choice is left in the conditioning points of a target: there is no limit, or no
/// two points are at the same distance.
pub open spec fn settled<const D: usize, F: Fn(Op, Double, Double) -> Double>(
    ar: Arithmetic<F>,
    places: Seq<[Double; D]>,
    max_neighbors: Option<usize>,
    radius: Option<Double>,
    target: [Double; D],
) -> bool {
    (max_neighbors is None && radius is None) || forall|i: usize, j: usize|
        i < places.len() && j < places.len() && i != j ==> #[trigger] spread(ar, places, target)(
            i,
        ) != #[trigger] spread(ar, places, target)(j)
}

/// Where no choice is left, a target has one list of conditioning points.
pub proof fn conditions_are_unique<const D: usize, F: Fn(Op, Double, Double) -> Double>(
    ar: Arithmetic<F>,
    places: Seq<[Double; D]>,
    max_neighbors: Option<usize>,
    radius: Option<Double>,
    target: [Double; D],
    a: Seq<usize>,
    b: Seq<usize>,
)
    requires
        ar.ieee(),
        settled(ar, places, max_neighbors, radius, target),
        conditions(ar, places, max_neighbors, radius, target, a),
        conditions(ar, places, max_neighbors, radius, target, b),
    ensures
        a == b,
{
    if !(max_neighbors is None && radius is None) {
        let k = match max_neighbors {
            Some(k) => k as nat,
            None => places.len(),
        };
        let d = spread(ar, places, target);
        assert forall|i: usize| i < places.len() implies (#[trigger] d(i)).nan() || !d(
            i,
        ).negative() by {
            ar.lemma_gap2_sign(places[i as int]@, target@, D as int);
        }
        nearest_points_agree(a, b, k, d, places.len(), limit(ar.square_radius(radius)));
    }
}

/// Looks up the conditioning points of targets.
pub struct Lookup<const D: usize> {
    tree: Option<KdTree<D>>,
    n: usize,
    max_neighbors: Option<usize>,
    radius: Option<Double>,
    places: Ghost<Seq<[Double; D]>>,
}

impl<const D: usize> Lookup<D> {
    /// The points.
    pub closed spec fn places(&self) -> Seq<[Double; D]> {
        self.places@
    }

    /// Most neighbors taken.
    pub closed spec fn most(&self) -> Option<usize> {
        self.max_neighbors
    }

    /// Search radius.
    pub closed spec fn reach(&self) -> Option<Double> {
        self.radius
    }

    /// The search tree, where one is needed, holds the points.
    pub closed spec fn well_formed(&self) -> bool {
        &&& 0 < D
        &&& self.places@.len() == self.n
        &&& finite_points(self.places@)
        &&& self.tree is None <==> self.max_neighbors is None && self.radius is None
        &&& self.tree matches Some(tree) ==> tree.well_formed() && tree.points() == self.places@
    }

    /// Prepares the lookup.
    pub fn new(
        coords: &Vec<[Double; D]>,
        max_neighbors: Option<usize>,
        radius: Option<Double>,
    ) -> (r: Lookup<D>)
        requires
            0 < D,
            coords.len() <= u32::MAX,
            finite_points(coords@),
        ensures
            r.well_formed(),
            r.places() == coords@,
            r.most() == max_neighbors,
            r.reach() == radius,
    {
        let tree: Option<KdTree<D>> = if max_neighbors.is_some() || radius.is_some() {
            Some(KdTree::build(copy_points(coords)))
        } else {
            None
        };
        Lookup { tree, n: coords.len(), max_neighbors, radius, places: Ghost(coords@) }
    }

    /// Conditioning points of a target.
    pub fn around<F: Fn(Op, Double, Double) -> Double>(
        &self,
        target: [Double; D],
        ar: &Arithmetic<F>,
    ) -> (nb: Vec<usize>)
        requires
            self.well_formed(),
            ar.ieee(),
        ensures
            conditions(*ar, self.places(), self.most(), self.reach(), target, nb@),
            nb.len() <= self.places().len(),
            forall|i: int| 0 <= i < nb.len() ==> (#[trigger] nb@[i]) < self.places().len(),
    {
        match &self.tree {
            None => count_up(self.n),
            Some(tree) => {
                let k: usize = match self.max_neighbors {
                    Some(k) => k,
                    None => self.n,
                };
                let nb: Vec<usize> = tree.nearest(target, k, self.radius, ar);
                proof {
                    lemma_found_fit(
                        nb@,
                        k as nat,
                        spread(*ar, self.places(), target),
                        self.n as nat,
                        limit(ar.square_radius(self.radius)),
                    );
                }
                nb
            },
        }
    }
}

} // verus!

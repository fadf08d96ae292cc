//! Incremental bucket grid: points sorted into square cells, with nearest
//! neighbor search by rings of cells around a target.

use vstd::prelude::*;

use crate::arith::{num, Arithmetic, Op, TWO};
use crate::buckets::{
    bucket_cap, chebyshev, follows, nearest_cell, ring_search, volume, Buckets,
};
use crate::double::{Double, HIDDEN, ONE};
use crate::kdtree::{limit, spread};
use crate::search::{computes, k_nearest_of, nearest_points_agree, search_result, Distance};

verus! {

/// Bit pattern of 1e-9.
pub const FLAT: u64 = 0x3E11_2E0B_E826_D695;

/// Bit pattern of 1e-12.
pub const SMALLEST_CELL: u64 = 0x3D71_9799_812D_EA11;

/// Extents of a box along its axes.
pub open spec fn extents_of<F: Fn(Op, Double, Double) -> Double>(
    ar: Arithmetic<F>,
    min: Seq<Double>,
    max: Seq<Double>,
) -> Seq<Double> {
    Seq::new(min.len(), |d: int| ar.minus(max[d], min[d]))
}

/// Largest of the first `n` extents, at least zero.
pub open spec fn widest(exts: Seq<Double>, n: int) -> Double
    decreases n,
{
    if n <= 0 {
        num(0)
    } else {
        widest(exts, n - 1).max(exts[n - 1])
    }
}

/// The box is not flat along axis `d`.
pub open spec fn is_active<F: Fn(Op, Double, Double) -> Double>(
    ar: Arithmetic<F>,
    exts: Seq<Double>,
    d: int,
) -> bool {
    ar.times(widest(exts, exts.len() as int), num(FLAT)).lt(exts[d])
}

/// How many of the first `n` axes are not flat.
pub open spec fn active_count<F: Fn(Op, Double, Double) -> Double>(
    ar: Arithmetic<F>,
    exts: Seq<Double>,
    n: int,
) -> nat
    decreases n,
{
    if n <= 0 {
        0
    } else {
        active_count(ar, exts, n - 1) + if is_active(ar, exts, n - 1) {
            1nat
        } else {
            0nat
        }
    }
}

/// Product of the extents that are not flat, among the first `n`.
pub open spec fn active_volume<F: Fn(Op, Double, Double) -> Double>(
    ar: Arithmetic<F>,
    exts: Seq<Double>,
    n: int,
) -> Double
    decreases n,
{
    if n <= 0 {
        num(ONE)
    } else if is_active(ar, exts, n - 1) {
        ar.times(active_volume(ar, exts, n - 1), exts[n - 1])
    } else {
        active_volume(ar, exts, n - 1)
    }
}

/// `n`, at least one.
pub open spec fn at_least_one(n: nat) -> nat {
    if n == 0 {
        1
    } else {
        n
    }
}

/// Cell size aimed at: about one point per cell.
pub open spec fn first_cell<F: Fn(Op, Double, Double) -> Double>(
    ar: Arithmetic<F>,
    exts: Seq<Double>,
    expected: nat,
) -> Double {
    let share = ar.over(
        num(ONE),
        Double::count(at_least_one(active_count(ar, exts, exts.len() as int))),
    );
    ar.times(
        ar.pow(active_volume(ar, exts, exts.len() as int), share).max(num(SMALLEST_CELL)),
        ar.over(num(ONE), ar.pow(Double::count(at_least_one(expected)), share)),
    )
}

/// The cell size, doubled `k` times.
pub open spec fn doubled<F: Fn(Op, Double, Double) -> Double>(
    ar: Arithmetic<F>,
    cell: Double,
    k: nat,
) -> Double
    decreases k,
{
    if k == 0 {
        cell
    } else {
        ar.times(doubled(ar, cell, (k - 1) as nat), num(TWO))
    }
}

/// Cells that an extent takes: rounded up, at least one.
pub open spec fn cells_across(x: Double) -> int {
    Double::kept(x.saturated(x.ceiled()), 1, usize::MAX as int)
}

/// Cells along each axis.
pub open spec fn axis_cells<F: Fn(Op, Double, Double) -> Double>(
    ar: Arithmetic<F>,
    exts: Seq<Double>,
    cell: Double,
) -> Seq<usize> {
    Seq::new(
        exts.len(),
        |d: int|
            if is_active(ar, exts, d) {
                cells_across(ar.over(exts[d], cell)) as usize
            } else {
                1usize
            },
    )
}

/// The cells are not more than a small multiple of the points expected.
pub open spec fn fits<F: Fn(Op, Double, Double) -> Double>(
    ar: Arithmetic<F>,
    exts: Seq<Double>,
    cell: Double,
    expected: nat,
) -> bool {
    volume(axis_cells(ar, exts, cell), exts.len() as int) <= bucket_cap(expected)
}

/// The first doubling after which the cells fit.
pub open spec fn settles_at<F: Fn(Op, Double, Double) -> Double>(
    ar: Arithmetic<F>,
    exts: Seq<Double>,
    expected: nat,
    k: nat,
) -> bool {
    &&& fits(ar, exts, doubled(ar, first_cell(ar, exts, expected), k), expected)
    &&& forall|j: nat|
        j < k ==> !fits(
            ar,
            exts,
            #[trigger] doubled(ar, first_cell(ar, exts, expected), j),
            expected,
        )
}

/// Doubling the cell size comes to an end.
pub open spec fn settles<F: Fn(Op, Double, Double) -> Double>(
    ar: Arithmetic<F>,
    exts: Seq<Double>,
    expected: nat,
) -> bool {
    exists|k: nat|
        fits(
            ar,
            exts,
            #[trigger] doubled(ar, first_cell(ar, exts, expected), k),
            expected,
        )
}

/// Raw cell coordinate of a coordinate.
pub open spec fn raw_cell<F: Fn(Op, Double, Double) -> Double>(
    ar: Arithmetic<F>,
    x: Double,
    origin: Double,
    cell: Double,
) -> int {
    let q = ar.over(ar.minus(x, origin), cell);
    Double::kept(q.saturated(q.truncated()), isize::MIN as int, isize::MAX as int)
}

/// Raw cell coordinates of a point.
pub open spec fn raw_cells<F: Fn(Op, Double, Double) -> Double>(
    ar: Arithmetic<F>,
    p: Seq<Double>,
    origin: Seq<Double>,
    cell: Double,
) -> Seq<isize> {
    Seq::new(p.len(), |d: int| raw_cell(ar, p[d], origin[d], cell) as isize)
}

/// Square of the least distance to a cell at a ring.
pub open spec fn ring_bound<F: Fn(Op, Double, Double) -> Double>(
    ar: Arithmetic<F>,
    ring: nat,
    cell: Double,
) -> Double {
    ar.square(ar.times(ar.minus(Double::count(ring), num(ONE)).max(num(0)), cell))
}

/// Points sorted into cells; a point's index is its insertion order.
pub struct BucketGrid<const D: usize> {
    origin: [Double; D],
    cell: Double,
    core: Buckets,
    pts: Vec<[Double; D]>,
}

impl<const D: usize> BucketGrid<D> {
    /// Lower corner of the grid.
    pub closed spec fn corner(&self) -> Seq<Double> {
        self.origin@
    }

    /// Size of a cell.
    pub closed spec fn size(&self) -> Double {
        self.cell
    }

    /// Number of cells along each axis.
    pub closed spec fn shape(&self) -> Seq<usize> {
        self.core.shape()
    }

    /// The points, in insertion order.
    pub closed spec fn points(&self) -> Seq<[Double; D]> {
        self.pts@
    }

    /// Cells of the points, in insertion order.
    pub closed spec fn cells(&self) -> Seq<Seq<usize>> {
        self.core.cells()
    }

    /// The cell of a point.
    pub open spec fn cell_of<F: Fn(Op, Double, Double) -> Double>(
        &self,
        p: [Double; D],
        ar: Arithmetic<F>,
    ) -> Seq<usize> {
        nearest_cell(raw_cells(ar, p@, self.corner(), self.size()), self.shape())
    }

    /// One axis per dimension, and every point stands in a cell.
    pub closed spec fn well_formed(&self) -> bool {
        &&& self.core.well_formed()
        &&& self.core.shape().len() == D
        &&& self.core.cells().len() == self.pts@.len()
        &&& self.pts@.len() <= u32::MAX
    }

    /// The points stand in their cells.
    pub open spec fn sorted<F: Fn(Op, Double, Double) -> Double>(&self, ar: Arithmetic<F>) -> bool {
        forall|i: int|
            0 <= i < self.points().len() ==> #[trigger] self.cells()[i] == self.cell_of(
                self.points()[i],
                ar,
            )
    }

    /// The bounds by ring hold of the distances of these points from `target`.
    pub open spec fn bounds_hold<F: Fn(Op, Double, Double) -> Double>(
        &self,
        pts: Seq<[Double; D]>,
        target: [Double; D],
        ar: Arithmetic<F>,
    ) -> bool {
        forall|i: usize, ring: usize|
            #![trigger spread(ar, pts, target)(i), Double::count(ring as nat)]
            i < pts.len() && ring < 2 * HIDDEN && ring <= chebyshev(
                self.cell_of(pts[i as int], ar),
                self.cell_of(target, ar),
                D as int,
            ) ==> spread(ar, pts, target)(i).nan() || ring_bound(
                ar,
                ring as nat,
                self.size(),
            ).at_most(spread(ar, pts, target)(i))
    }

    /// The bounds by ring, as a function of the ring.
    pub open spec fn ring_bounds<F: Fn(Op, Double, Double) -> Double>(&self, ar: Arithmetic<F>) -> Distance {
        let cell = self.size();
        |ring: usize|
            if ring < 2 * HIDDEN {
                ring_bound(ar, ring as nat, cell)
            } else {
                num(0)
            }
    }

    /// The points that a search finds in cells like those of this grid, once these
    /// points are sorted into them.
    pub open spec fn nearest_among<F: Fn(Op, Double, Double) -> Double>(
        &self,
        pts: Seq<[Double; D]>,
        target: [Double; D],
        k: nat,
        radius: Option<Double>,
        ar: Arithmetic<F>,
    ) -> Seq<usize> {
        ring_search(
            self.shape(),
            Seq::new(pts.len(), |i: int| self.cell_of(pts[i], ar)),
            raw_cells(ar, target@, self.corner(), self.size()),
            k,
            ar.square_radius(radius),
            spread(ar, pts, target),
            self.ring_bounds(ar),
        )
    }

    /// Number of points inserted.
    pub fn len(&self) -> (n: usize)
        ensures
            n == self.points().len(),
    {
        self.pts.len()
    }

    /// Number of cells along each axis.
    pub fn counts(&self) -> (n: &Vec<usize>)
        ensures
            n@ == self.shape(),
    {
        self.core.counts()
    }

    /// An empty grid over the box from `min` to `max` for about `expected`
    /// points. Axes along which the box is flat get one cell; the cell size is
    /// doubled until there are not more cells than a small multiple of the
    /// points expected.
    pub fn new<F: Fn(Op, Double, Double) -> Double>(
        min: [Double; D],
        max: [Double; D],
        expected: usize,
        ar: &Arithmetic<F>,
    ) -> (grid: BucketGrid<D>)
        requires
            0 < D,
            D < 2 * HIDDEN,
            expected < 2 * HIDDEN,
            ar.total(),
            settles(*ar, extents_of(*ar, min@, max@), expected as nat),
        ensures
            grid.well_formed(),
            grid.points().len() == 0,
            grid.corner() == min@,
            exists|k: nat| #[trigger]
                settles_at(*ar, extents_of(*ar, min@, max@), expected as nat, k) && grid.size()
                    == doubled(
                    *ar,
                    first_cell(*ar, extents_of(*ar, min@, max@), expected as nat),
                    k,
                ),
            grid.shape() == axis_cells(*ar, extents_of(*ar, min@, max@), grid.size()),
    {
        let mut exts: Vec<Double> = Vec::new();
        for d in 0..D
            invariant
                ar.total(),
                exts.len() == d,
                forall|i: int| 0 <= i < d ==> #[trigger] exts@[i] == ar.minus(max@[i], min@[i]),
        {
            exts.push(ar.minus(max[d], min[d]));
        }
        let ghost ex = extents_of(*ar, min@, max@);
        assert(exts@ =~= ex);
        let mut wide: Double = Double::zero();
        for d in 0..D
            invariant
                exts@ == ex,
                exts.len() == D,
                wide == widest(ex, d as int),
        {
            wide = wide.max(exts[d]);
        }
        let tol: Double = ar.times(wide, num(FLAT));
        let mut active: Vec<bool> = Vec::new();
        let mut n_active: usize = 0;
        let mut vol: Double = num(ONE);
        for d in 0..D
            invariant
                ar.total(),
                exts@ == ex,
                exts.len() == D,
                tol == ar.times(widest(ex, ex.len() as int), num(FLAT)),
                active.len() == d,
                forall|i: int| 0 <= i < d ==> #[trigger] active@[i] == is_active(*ar, ex, i),
                n_active == active_count(*ar, ex, d as int),
                n_active <= d,
                vol == active_volume(*ar, ex, d as int),
        {
            let a: bool = tol.lt(exts[d]);
            active.push(a);
            if a {
                n_active = n_active + 1;
                vol = ar.times(vol, exts[d]);
            }
        }
        let axes: usize = if n_active == 0 {
            1
        } else {
            n_active
        };
        let points: usize = if expected == 0 {
            1
        } else {
            expected
        };
        let share: Double = ar.over(num(ONE), Double::from_count(axes));
        let mut cell: Double = ar.times(
            ar.pow(vol, share).max(num(SMALLEST_CELL)),
            ar.over(num(ONE), ar.pow(Double::from_count(points), share)),
        );
        let ghost start = first_cell(*ar, ex, expected as nat);
        assert(cell == start);
        let ghost end: nat = choose|k: nat|
            fits(*ar, ex, #[trigger] doubled(*ar, start, k), expected as nat);
        let ghost mut k: nat = 0;
        loop
            invariant
                0 < D,
                ar.total(),
                exts@ == ex,
                ex.len() == D,
                active.len() == D,
                forall|i: int| 0 <= i < D ==> #[trigger] active@[i] == is_active(*ar, ex, i),
                ex == extents_of(*ar, min@, max@),
                start == first_cell(*ar, ex, expected as nat),
                cell == doubled(*ar, start, k),
                fits(*ar, ex, doubled(*ar, start, end), expected as nat),
                k <= end,
                forall|j: nat|
                    j < k ==> !fits(*ar, ex, #[trigger] doubled(*ar, start, j), expected as nat),
            decreases end - k,
        {
            let mut n: Vec<usize> = Vec::new();
            for d in 0..D
                invariant
                    ar.total(),
                    exts@ == ex,
                    ex.len() == D,
                    active.len() == D,
                    forall|i: int| 0 <= i < D ==> #[trigger] active@[i] == is_active(*ar, ex, i),
                    n.len() == d,
                    forall|i: int|
                        0 <= i < d ==> #[trigger] n@[i] == axis_cells(*ar, ex, cell)[i] && n@[i] > 0,
            {
                let c: usize = if active[d] {
                    across(ar.over(exts[d], cell))
                } else {
                    1
                };
                n.push(c);
            }
            assert(n@ =~= axis_cells(*ar, ex, cell));
            match Buckets::new(n, expected) {
                Some(core) => {
                    proof {
                        assert(settles_at(*ar, ex, expected as nat, k));
                    }
                    return BucketGrid { origin: min, cell, core, pts: Vec::new() };
                },
                None => {
                    proof {
                        assert(!fits(*ar, ex, doubled(*ar, start, k), expected as nat));
                        k = k + 1;
                    }
                    cell = ar.times(cell, num(TWO));
                },
            }
        }
    }

    fn raw_of<F: Fn(Op, Double, Double) -> Double>(&self, p: &[Double; D], ar: &Arithmetic<F>) -> (
    raw: Vec<isize>)
        requires
            ar.total(),
        ensures
            raw@ == raw_cells(*ar, p@, self.corner(), self.size()),
    {
        let mut raw: Vec<isize> = Vec::new();
        for d in 0..D
            invariant
                ar.total(),
                raw.len() == d,
                forall|i: int|
                    0 <= i < d ==> #[trigger] raw@[i] == raw_cell(
                        *ar,
                        p@[i],
                        self.origin@[i],
                        self.cell,
                    ),
        {
            let q: i64 = ar.over(ar.minus(p[d], self.origin[d]), self.cell).trunc();
            let c: isize = if q < isize::MIN as i64 {
                isize::MIN
            } else if q > isize::MAX as i64 {
                isize::MAX
            } else {
                q as isize
            };
            raw.push(c);
        }
        assert(raw@ =~= raw_cells(*ar, p@, self.origin@, self.cell));
        raw
    }

    /// Inserts a point; its index is the insertion order.
    pub fn insert<F: Fn(Op, Double, Double) -> Double>(&mut self, p: [Double; D], ar: &Arithmetic<F>)
        requires
            old(self).well_formed(),
            old(self).points().len() < u32::MAX,
            ar.total(),
        ensures
            final(self).well_formed(),
            final(self).corner() == old(self).corner(),
            final(self).size() == old(self).size(),
            final(self).shape() == old(self).shape(),
            final(self).points() == old(self).points().push(p),
            final(self).cells() == old(self).cells().push(old(self).cell_of(p, *ar)),
            old(self).sorted(*ar) ==> final(self).sorted(*ar),
    {
        let raw: Vec<isize> = self.raw_of(&p, ar);
        let ghost before = *self;
        self.core.insert(&raw);
        self.pts.push(p);
        proof {
            if before.sorted(*ar) {
                assert forall|i: int| 0 <= i < self.points().len() implies #[trigger] self.cells()[i]
                    == self.cell_of(self.points()[i], *ar) by {
                    if i < before.points().len() {
                        assert(self.cells()[i] == before.cells()[i]);
                    }
                }
            }
        }
    }

    /// Up-to-`k` nearest points to `target`, optionally within a radius,
    /// nearest first.
    pub fn k_nearest<F: Fn(Op, Double, Double) -> Double>(
        &self,
        target: [Double; D],
        k: usize,
        radius: Option<Double>,
        ar: &Arithmetic<F>,
    ) -> (found: Vec<usize>)
        requires
            self.well_formed(),
            self.sorted(*ar),
            ar.ieee(),
        ensures
            search_result(
                found@,
                k as nat,
                spread(*ar, self.points(), target),
                self.points().len(),
                limit(ar.square_radius(radius)),
                self.bounds_hold(self.points(), target, *ar),
            ),
            forall|i: int| 0 <= i < found.len() ==> (#[trigger] found@[i]) < self.points().len(),
            found@ == self.nearest_among(self.points(), target, k as nat, radius, *ar),
    {
        let raw: Vec<isize> = self.raw_of(&target, ar);
        let pts: &Vec<[Double; D]> = &self.pts;
        let cell: Double = self.cell;
        let dist = |i: usize| -> (r: Double)
            requires
                i < pts.len(),
                ar.total(),
            ensures
                r == ar.distance2(pts@[i as int], target),
            { ar.dist2(&pts[i], &target) };
        let reach = |ring: usize| -> (r: Double)
            requires
                ar.total(),
            ensures
                ring < 2 * HIDDEN ==> r == ring_bound(*ar, ring as nat, cell),
                ring >= 2 * HIDDEN ==> r == num(0),
            { ring_reach(ring, cell, ar) };
        let ghost d = spread(*ar, self.points(), target);
        proof {
            assert forall|i: usize| i < self.points().len() implies (#[trigger] d(i)).nan()
                || !d(i).negative() by {
                ar.lemma_gap2_sign(self.points()[i as int]@, target@, D as int);
            }
            assert(computes(dist, self.core.cells().len(), d));
            if self.bounds_hold(self.points(), target, *ar) {
                assert(self.core.reach_is_sound(raw@, d, reach)) by {
                    assert forall|i: usize, ring: usize, g: Double|
                        #![trigger d(i), call_ensures(reach, (ring,), g)]
                        i < self.core.cells().len() && call_ensures(reach, (ring,), g) && ring
                            <= chebyshev(
                            self.core.cells()[i as int],
                            nearest_cell(raw@, self.core.shape()),
                            self.core.shape().len() as int,
                        ) implies d(i).nan() || g.at_most(d(i)) by {
                        assert(self.cells()[i as int] == self.cell_of(
                            self.points()[i as int],
                            *ar,
                        ));
                        if ring < 2 * HIDDEN {
                            assert(spread(*ar, self.points(), target)(i) == d(i));
                            assert(Double::count(ring as nat) == Double::count(ring as nat));
                        } else {
                            ar.lemma_gap2_sign(self.points()[i as int]@, target@, D as int);
                        }
                    }
                }
            }
        }
        let ghost bounds = self.ring_bounds(*ar);
        proof {
            assert forall|i: usize, r: Double| #[trigger] call_ensures(reach, (i,), r) implies r
                == bounds(i) by {}
            assert(follows(reach, bounds));
            assert(self.core.cells() =~= Seq::new(
                self.points().len(),
                |i: int| self.cell_of(self.points()[i], *ar),
            )) by {
                assert forall|i: int| 0 <= i < self.points().len() implies self.core.cells()[i]
                    == self.cell_of(self.points()[i], *ar) by {
                    assert(self.cells()[i] == self.cell_of(self.points()[i], *ar));
                }
            }
        }
        self.core.k_nearest_by(
            &raw,
            k,
            ar.square_radius(radius),
            &dist,
            &reach,
            Ghost(d),
            Ghost(bounds),
        )
    }
}

/// Where the bounds by ring hold, the search in the cells agrees with any other search
/// for the nearest of the points, such as that of a tree or of other cells: it finds as
/// many points, at the same distances rank by rank, and the same points where no two
/// distances are equal.
pub proof fn cells_agree_with_any_search<const D: usize, F: Fn(Op, Double, Double) -> Double>(
    grid: &BucketGrid<D>,
    target: [Double; D],
    k: nat,
    radius: Option<Double>,
    ar: Arithmetic<F>,
    found: Seq<usize>,
    other: Seq<usize>,
)
    requires
        ar.ieee(),
        grid.bounds_hold(grid.points(), target, ar),
        search_result(
            found,
            k,
            spread(ar, grid.points(), target),
            grid.points().len(),
            limit(ar.square_radius(radius)),
            grid.bounds_hold(grid.points(), target, ar),
        ),
        k_nearest_of(
            other,
            k,
            spread(ar, grid.points(), target),
            grid.points().len(),
            limit(ar.square_radius(radius)),
        ),
    ensures
        ({
            let d = spread(ar, grid.points(), target);
            &&& found.len() == other.len()
            &&& forall|p: int| 0 <= p < found.len() ==> d(#[trigger] found[p]) == d(other[p])
            &&& (forall|i: usize, j: usize|
                i < grid.points().len() && j < grid.points().len() && i != j ==> #[trigger] d(i)
                    != #[trigger] d(j)) ==> found == other
        }),
{
    let d = spread(ar, grid.points(), target);
    assert forall|i: usize| i < grid.points().len() implies (#[trigger] d(i)).nan()
        || !d(i).negative() by {
        ar.lemma_gap2_sign(grid.points()[i as int]@, target@, D as int);
    }
    nearest_points_agree(
        found,
        other,
        k,
        d,
        grid.points().len(),
        limit(ar.square_radius(radius)),
    );
}

fn ring_reach<F: Fn(Op, Double, Double) -> Double>(
    ring: usize,
    cell: Double,
    ar: &Arithmetic<F>,
) -> (r: Double)
    requires
        ar.total(),
    ensures
        ring < 2 * HIDDEN ==> r == ring_bound(*ar, ring as nat, cell),
        ring >= 2 * HIDDEN ==> r == num(0),
{
    if ring as u64 >= 2 * HIDDEN {
        return Double::zero();
    }
    ar.square(ar.times(ar.minus(Double::from_count(ring), num(ONE)).max(num(0)), cell))
}

/// Cells that an extent takes: rounded up, at least one.
pub fn across(x: Double) -> (n: usize)
    ensures
        n == cells_across(x),
        n > 0,
{
    let c: i64 = x.ceil();
    if c <= 1 {
        1
    } else if c as u64 > usize::MAX as u64 {
        usize::MAX
    } else {
        c as usize
    }
}

} // verus!

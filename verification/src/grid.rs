//! Regular grid definitions for prediction and simulation targets.

use vstd::arithmetic::div_mod::lemma_fundamental_div_mod_converse;
use vstd::prelude::*;

use crate::arith::{num, Arithmetic, Op, HALF};
use crate::bucket_grid::{across, cells_across};
use crate::double::{Double, HIDDEN};
use crate::error::{GeostatError, Message};

verus! {

/// A regular 2-D grid. `(x0, y0)` is the lower-left *edge* of the grid;
/// predictions are made at cell centers. Cells are stored row-major with
/// index `iy * nx + ix`, y increasing.
#[derive(Clone, Copy, Debug, PartialEq, Eq, Structural)]
pub struct Grid2D {
    /// X coordinate of the left edge.
    pub x0: Double,
    /// Y coordinate of the bottom edge.
    pub y0: Double,
    /// Cell width.
    pub dx: Double,
    /// Cell height.
    pub dy: Double,
    /// Number of columns.
    pub nx: usize,
    /// Number of rows.
    pub ny: usize,
}

/// The upper corner lies beyond the lower one along every axis.
pub open spec fn proper_box(min: Seq<Double>, max: Seq<Double>) -> bool {
    forall|d: int| 0 <= d < min.len() ==> (#[trigger] min[d]).below(max[d])
}

fn degenerate_2d(min: [Double; 2], max: [Double; 2]) -> (e: GeostatError)
    ensures
        e matches GeostatError::InvalidParameter(m) && m.says_of(
            "degenerate bbox: min [{:?}, {:?}], max [{:?}, {:?}]"@,
            min@ + max@,
        ),
{
    let mut doubles: Vec<Double> = Vec::new();
    doubles.push(min[0]);
    doubles.push(min[1]);
    doubles.push(max[0]);
    doubles.push(max[1]);
    assert(doubles@ =~= min@ + max@);
    let text: String = "degenerate bbox: min [{:?}, {:?}], max [{:?}, {:?}]".to_owned();
    GeostatError::InvalidParameter(Message::with(text, doubles))
}

/// Coordinate of the center of cell `i` along an axis.
pub open spec fn cell_center<F: Fn(Op, Double, Double) -> Double>(
    ar: Arithmetic<F>,
    lo: Double,
    step: Double,
    i: nat,
) -> Double {
    ar.plus(lo, ar.times(ar.plus(Double::count(i), num(HALF)), step))
}

fn center_along<F: Fn(Op, Double, Double) -> Double>(
    lo: Double,
    step: Double,
    i: usize,
    ar: &Arithmetic<F>,
) -> (c: Double)
    requires
        ar.total(),
        i < 2 * HIDDEN,
    ensures
        c == cell_center(*ar, lo, step, i as nat),
{
    ar.plus(lo, ar.times(ar.plus(Double::from_count(i), num(HALF)), step))
}

/// An `n`-th of the way from `lo` to `hi`.
pub open spec fn nth_part<F: Fn(Op, Double, Double) -> Double>(
    ar: Arithmetic<F>,
    lo: Double,
    hi: Double,
    n: nat,
) -> Double {
    ar.over(ar.minus(hi, lo), Double::count(n))
}

/// The cells of side `res` between `lo` and `hi` can be counted.
pub open spec fn countable<F: Fn(Op, Double, Double) -> Double>(
    ar: Arithmetic<F>,
    lo: Double,
    hi: Double,
    res: Double,
) -> bool {
    let x = ar.over(ar.minus(hi, lo), res);
    x.nan() || (x.finite() && x.ceiled() <= i64::MAX)
}

impl Grid2D {
    /// Number of cells, in exact arithmetic.
    pub open spec fn cells(self) -> nat {
        self.nx as nat * self.ny as nat
    }

    /// Grid covering `[min, max]` with `nx` x `ny` cells.
    pub fn from_bbox<F: Fn(Op, Double, Double) -> Double>(
        min: [Double; 2],
        max: [Double; 2],
        nx: usize,
        ny: usize,
        ar: &Arithmetic<F>,
    ) -> (r: Result<Grid2D, GeostatError>)
        requires
            ar.total(),
            nx < 2 * HIDDEN,
            ny < 2 * HIDDEN,
        ensures
            r is Ok <==> nx > 0 && ny > 0 && proper_box(min@, max@),
            r matches Ok(g) ==> {
                &&& g.x0 == min@[0]
                &&& g.y0 == min@[1]
                &&& g.nx == nx
                &&& g.ny == ny
                &&& g.dx == nth_part(*ar, min@[0], max@[0], nx as nat)
                &&& g.dy == nth_part(*ar, min@[1], max@[1], ny as nat)
            },
            r matches Err(e) ==> if nx == 0 || ny == 0 {
                e matches GeostatError::InvalidParameter(m) && m.says(
                    "grid must have at least one cell per axis"@,
                )
            } else {
                e matches GeostatError::InvalidParameter(m) && m.says_of(
                    "degenerate bbox: min [{:?}, {:?}], max [{:?}, {:?}]"@,
                    min@ + max@,
                )
            },
    {
        if nx == 0 || ny == 0 {
            return Err(
                GeostatError::InvalidParameter(
                    Message::plain("grid must have at least one cell per axis"),
                ),
            );
        }
        if !min[0].lt(max[0]) || !min[1].lt(max[1]) {
            assert(!min@[0].below(max@[0]) || !min@[1].below(max@[1]));
            return Err(degenerate_2d(min, max));
        }
        Ok(
            Grid2D {
                x0: min[0],
                y0: min[1],
                dx: ar.over(ar.minus(max[0], min[0]), Double::from_count(nx)),
                dy: ar.over(ar.minus(max[1], min[1]), Double::from_count(ny)),
                nx,
                ny,
            },
        )
    }

    /// Grid covering `[min, max]` with square cells of side `res` (the extent
    /// is expanded to a whole number of cells, at least one).
    pub fn with_resolution<F: Fn(Op, Double, Double) -> Double>(
        min: [Double; 2],
        max: [Double; 2],
        res: Double,
        ar: &Arithmetic<F>,
    ) -> (r: Result<Grid2D, GeostatError>)
        requires
            ar.total(),
            countable(*ar, min@[0], max@[0], res),
            countable(*ar, min@[1], max@[1], res),
        ensures
            r is Ok <==> res.positive() && proper_box(min@, max@),
            r matches Ok(g) ==> {
                &&& g.x0 == min@[0]
                &&& g.y0 == min@[1]
                &&& g.dx == res
                &&& g.dy == res
                &&& g.nx == cells_across(ar.over(ar.minus(max@[0], min@[0]), res))
                &&& g.ny == cells_across(ar.over(ar.minus(max@[1], min@[1]), res))
            },
            r matches Err(e) ==> if !res.positive() {
                e matches GeostatError::InvalidParameter(m) && m.says_of(
                    "resolution must be positive, got {}"@,
                    seq![res],
                )
            } else {
                e matches GeostatError::InvalidParameter(m) && m.says_of(
                    "degenerate bbox: min [{:?}, {:?}], max [{:?}, {:?}]"@,
                    min@ + max@,
                )
            },
    {
        if !res.is_positive() {
            return Err(
                GeostatError::InvalidParameter(
                    Message::about("resolution must be positive, got {}", res),
                ),
            );
        }
        if !min[0].lt(max[0]) || !min[1].lt(max[1]) {
            assert(!min@[0].below(max@[0]) || !min@[1].below(max@[1]));
            return Err(degenerate_2d(min, max));
        }
        Ok(
            Grid2D {
                x0: min[0],
                y0: min[1],
                dx: res,
                dy: res,
                nx: across(ar.over(ar.minus(max[0], min[0]), res)),
                ny: across(ar.over(ar.minus(max[1], min[1]), res)),
            },
        )
    }

    /// Total number of cells.
    pub fn n_cells(&self) -> (n: usize)
        requires
            self.cells() <= usize::MAX,
        ensures
            n == self.cells(),
    {
        self.nx * self.ny
    }

    /// Center of cell `(ix, iy)`.
    pub open spec fn center_at<F: Fn(Op, Double, Double) -> Double>(
        self,
        ar: Arithmetic<F>,
        ix: nat,
        iy: nat,
    ) -> Seq<Double> {
        seq![
            cell_center(ar, self.x0, self.dx, ix),
            cell_center(ar, self.y0, self.dy, iy),
        ]
    }

    /// The cells can be counted by doubles, and their centers listed.
    pub open spec fn listable(self) -> bool {
        &&& self.nx < 2 * HIDDEN
        &&& self.ny < 2 * HIDDEN
        &&& self.cells() <= usize::MAX
    }

    /// `points` are the cell centers, in storage order.
    pub open spec fn are_centers<F: Fn(Op, Double, Double) -> Double>(
        self,
        ar: Arithmetic<F>,
        points: Seq<[Double; 2]>,
    ) -> bool {
        &&& points.len() == self.cells()
        &&& forall|i: int|
            0 <= i < points.len() ==> (#[trigger] points[i])@ == self.center_at(
                ar,
                (i % self.nx as int) as nat,
                (i / self.nx as int) as nat,
            )
    }

    /// Center of cell `(ix, iy)`.
    pub fn center<F: Fn(Op, Double, Double) -> Double>(
        &self,
        ix: usize,
        iy: usize,
        ar: &Arithmetic<F>,
    ) -> (c: [Double; 2])
        requires
            ar.total(),
            ix < 2 * HIDDEN,
            iy < 2 * HIDDEN,
        ensures
            c@ == self.center_at(*ar, ix as nat, iy as nat),
    {
        let c: [Double; 2] = [
            center_along(self.x0, self.dx, ix, ar),
            center_along(self.y0, self.dy, iy, ar),
        ];
        assert(c@ =~= self.center_at(*ar, ix as nat, iy as nat));
        c
    }

    /// All cell centers in storage order (`iy * nx + ix`).
    pub fn centers<F: Fn(Op, Double, Double) -> Double>(&self, ar: &Arithmetic<F>) -> (out: Vec<[Double; 2]>)
        requires
            ar.total(),
            self.listable(),
        ensures
            self.are_centers(*ar, out@),
    {
        let mut out: Vec<[Double; 2]> = Vec::new();
        assert(0 * self.nx == 0) by (nonlinear_arith);
        for iy in 0..self.ny
            invariant
                ar.total(),
                self.listable(),
                out@.len() == iy * self.nx,
                forall|i: int|
                    0 <= i < out.len() ==> (#[trigger] out@[i])@ == self.center_at(
                        *ar,
                        (i % self.nx as int) as nat,
                        (i / self.nx as int) as nat,
                    ),
        {
            for ix in 0..self.nx
                invariant
                    iy < self.ny,
                    ar.total(),
                    self.listable(),
                    out@.len() == iy * self.nx + ix,
                    forall|i: int|
                        0 <= i < out.len() ==> (#[trigger] out@[i])@ == self.center_at(
                            *ar,
                            (i % self.nx as int) as nat,
                            (i / self.nx as int) as nat,
                        ),
            {
                proof {
                    lemma_fundamental_div_mod_converse(
                        iy * self.nx + ix,
                        self.nx as int,
                        iy as int,
                        ix as int,
                    );
                }
                let c: [Double; 2] = self.center(ix, iy, ar);
                out.push(c);
            }
            proof {
                assert((iy + 1) * self.nx == iy * self.nx + self.nx) by (nonlinear_arith);
            }
        }
        proof {
            assert(self.ny * self.nx == self.nx * self.ny) by (nonlinear_arith);
        }
        out
    }
}

/// A regular 3-D grid. `(x0, y0, z0)` is the lower corner *edge*; cells are
/// stored with index `(iz * ny + iy) * nx + ix` (x fastest, then y, then z).
#[derive(Clone, Copy, Debug, PartialEq, Eq, Structural)]
pub struct Grid3D {
    /// X coordinate of the lower edge.
    pub x0: Double,
    /// Y coordinate of the lower edge.
    pub y0: Double,
    /// Z coordinate of the lower edge.
    pub z0: Double,
    /// Cell width.
    pub dx: Double,
    /// Cell depth.
    pub dy: Double,
    /// Cell height.
    pub dz: Double,
    /// Number of cells in X.
    pub nx: usize,
    /// Number of cells in Y.
    pub ny: usize,
    /// Number of cells in Z.
    pub nz: usize,
}

impl Grid3D {
    /// Number of cells, in exact arithmetic.
    pub open spec fn cells(self) -> nat {
        self.nx as nat * self.ny as nat * self.nz as nat
    }

    /// Grid covering `[min, max]` with `nx` x `ny` x `nz` cells.
    pub fn from_bbox<F: Fn(Op, Double, Double) -> Double>(
        min: [Double; 3],
        max: [Double; 3],
        nx: usize,
        ny: usize,
        nz: usize,
        ar: &Arithmetic<F>,
    ) -> (r: Result<Grid3D, GeostatError>)
        requires
            ar.total(),
            nx < 2 * HIDDEN,
            ny < 2 * HIDDEN,
            nz < 2 * HIDDEN,
        ensures
            r is Ok <==> nx > 0 && ny > 0 && nz > 0 && proper_box(min@, max@),
            r matches Ok(g) ==> {
                &&& g.x0 == min@[0]
                &&& g.y0 == min@[1]
                &&& g.z0 == min@[2]
                &&& g.nx == nx
                &&& g.ny == ny
                &&& g.nz == nz
                &&& g.dx == nth_part(*ar, min@[0], max@[0], nx as nat)
                &&& g.dy == nth_part(*ar, min@[1], max@[1], ny as nat)
                &&& g.dz == nth_part(*ar, min@[2], max@[2], nz as nat)
            },
            r matches Err(e) ==> if nx == 0 || ny == 0 || nz == 0 {
                e matches GeostatError::InvalidParameter(m) && m.says(
                    "grid must have at least one cell per axis"@,
                )
            } else {
                e matches GeostatError::InvalidParameter(m) && m.says_of(
                    "degenerate bbox: min [{:?}, {:?}, {:?}], max [{:?}, {:?}, {:?}]"@,
                    min@ + max@,
                )
            },
    {
        if nx == 0 || ny == 0 || nz == 0 {
            return Err(
                GeostatError::InvalidParameter(
                    Message::plain("grid must have at least one cell per axis"),
                ),
            );
        }
        for d in 0..3usize
            invariant
                nx > 0,
                ny > 0,
                nz > 0,
                forall|e: int| 0 <= e < d ==> (#[trigger] min@[e]).below(max@[e]),
        {
            if !min[d].lt(max[d]) {
                let mut doubles: Vec<Double> = Vec::new();
                doubles.push(min[0]);
                doubles.push(min[1]);
                doubles.push(min[2]);
                doubles.push(max[0]);
                doubles.push(max[1]);
                doubles.push(max[2]);
                assert(doubles@ =~= min@ + max@);
                let text: String =
                    "degenerate bbox: min [{:?}, {:?}, {:?}], max [{:?}, {:?}, {:?}]".to_owned();
                assert(!min@[d as int].below(max@[d as int]));
                return Err(GeostatError::InvalidParameter(Message::with(text, doubles)));
            }
        }
        Ok(
            Grid3D {
                x0: min[0],
                y0: min[1],
                z0: min[2],
                dx: ar.over(ar.minus(max[0], min[0]), Double::from_count(nx)),
                dy: ar.over(ar.minus(max[1], min[1]), Double::from_count(ny)),
                dz: ar.over(ar.minus(max[2], min[2]), Double::from_count(nz)),
                nx,
                ny,
                nz,
            },
        )
    }

    /// Total number of cells.
    pub fn n_cells(&self) -> (n: usize)
        requires
            self.cells() <= usize::MAX,
            self.nx as nat * self.ny as nat <= usize::MAX,
        ensures
            n == self.cells(),
    {
        self.nx * self.ny * self.nz
    }

    /// Indices of the cell stored at `i`: x fastest, then y, then z.
    pub open spec fn index_of(self, i: int) -> (int, int, int) {
        let plane = self.nx as int * self.ny as int;
        (i % self.nx as int, (i / self.nx as int) % self.ny as int, i / plane)
    }

    /// Center of cell `(ix, iy, iz)`.
    pub open spec fn center_at<F: Fn(Op, Double, Double) -> Double>(
        self,
        ar: Arithmetic<F>,
        ix: nat,
        iy: nat,
        iz: nat,
    ) -> Seq<Double> {
        seq![
            cell_center(ar, self.x0, self.dx, ix),
            cell_center(ar, self.y0, self.dy, iy),
            cell_center(ar, self.z0, self.dz, iz),
        ]
    }

    /// The cells can be counted by doubles, and their centers listed.
    pub open spec fn listable(self) -> bool {
        &&& self.nx < 2 * HIDDEN
        &&& self.ny < 2 * HIDDEN
        &&& self.nz < 2 * HIDDEN
        &&& self.cells() <= usize::MAX
    }

    /// `points` are the cell centers, in storage order.
    pub open spec fn are_centers<F: Fn(Op, Double, Double) -> Double>(
        self,
        ar: Arithmetic<F>,
        points: Seq<[Double; 3]>,
    ) -> bool {
        &&& points.len() == self.cells()
        &&& forall|i: int|
            0 <= i < points.len() ==> (#[trigger] points[i])@ == self.center_at(
                ar,
                self.index_of(i).0 as nat,
                self.index_of(i).1 as nat,
                self.index_of(i).2 as nat,
            )
    }

    /// Center of cell `(ix, iy, iz)`.
    pub fn center<F: Fn(Op, Double, Double) -> Double>(
        &self,
        ix: usize,
        iy: usize,
        iz: usize,
        ar: &Arithmetic<F>,
    ) -> (c: [Double; 3])
        requires
            ar.total(),
            ix < 2 * HIDDEN,
            iy < 2 * HIDDEN,
            iz < 2 * HIDDEN,
        ensures
            c@ == self.center_at(*ar, ix as nat, iy as nat, iz as nat),
    {
        let c: [Double; 3] = [
            center_along(self.x0, self.dx, ix, ar),
            center_along(self.y0, self.dy, iy, ar),
            center_along(self.z0, self.dz, iz, ar),
        ];
        assert(c@ =~= self.center_at(*ar, ix as nat, iy as nat, iz as nat));
        c
    }

    /// All cell centers in storage order.
    pub fn centers<F: Fn(Op, Double, Double) -> Double>(&self, ar: &Arithmetic<F>) -> (out: Vec<[Double; 3]>)
        requires
            ar.total(),
            self.listable(),
        ensures
            self.are_centers(*ar, out@),
    {
        let mut out: Vec<[Double; 3]> = Vec::new();
        assert(0 * (self.nx * self.ny) == 0) by (nonlinear_arith);
        for iz in 0..self.nz
            invariant
                ar.total(),
                self.listable(),
                out@.len() == iz * (self.nx * self.ny),
                forall|i: int|
                    0 <= i < out.len() ==> (#[trigger] out@[i])@ == self.center_at(
                        *ar,
                        self.index_of(i).0 as nat,
                        self.index_of(i).1 as nat,
                        self.index_of(i).2 as nat,
                    ),
        {
            assert(0 * self.nx == 0) by (nonlinear_arith);
            for iy in 0..self.ny
                invariant
                    iz < self.nz,
                    ar.total(),
                    self.listable(),
                    out@.len() == iz * (self.nx * self.ny) + iy * self.nx,
                    forall|i: int|
                        0 <= i < out.len() ==> (#[trigger] out@[i])@ == self.center_at(
                            *ar,
                            self.index_of(i).0 as nat,
                            self.index_of(i).1 as nat,
                            self.index_of(i).2 as nat,
                        ),
            {
                for ix in 0..self.nx
                    invariant
                        iz < self.nz,
                        iy < self.ny,
                        ar.total(),
                        self.listable(),
                        out@.len() == iz * (self.nx * self.ny) + iy * self.nx + ix,
                        forall|i: int|
                            0 <= i < out.len() ==> (#[trigger] out@[i])@ == self.center_at(
                                *ar,
                                self.index_of(i).0 as nat,
                                self.index_of(i).1 as nat,
                                self.index_of(i).2 as nat,
                            ),
                {
                    proof {
                        lemma_index_3d(
                            self.nx as int,
                            self.ny as int,
                            ix as int,
                            iy as int,
                            iz as int,
                        );
                    }
                    let c: [Double; 3] = self.center(ix, iy, iz, ar);
                    out.push(c);
                }
                proof {
                    assert((iy + 1) * self.nx == iy * self.nx + self.nx) by (nonlinear_arith);
                }
            }
            proof {
                let plane = self.nx * self.ny;
                assert((iz + 1) * plane == iz * plane + plane) by (nonlinear_arith);
                assert(self.ny * self.nx == plane) by (nonlinear_arith)
                    requires
                        plane == self.nx * self.ny,
                ;
            }
        }
        proof {
            let plane = self.nx * self.ny;
            assert(self.nz * plane == plane * self.nz) by (nonlinear_arith);
        }
        out
    }
}

/// Storage index and cell indices of a 3-D grid determine each other.
pub proof fn lemma_index_3d(nx: int, ny: int, ix: int, iy: int, iz: int)
    requires
        0 <= ix < nx,
        0 <= iy < ny,
        0 <= iz,
    ensures
        ({
            let i = iz * (nx * ny) + iy * nx + ix;
            &&& i % nx == ix
            &&& (i / nx) % ny == iy
            &&& i / (nx * ny) == iz
        }),
{
    let i = iz * (nx * ny) + iy * nx + ix;
    assert(i == (iz * ny + iy) * nx + ix) by (nonlinear_arith)
        requires
            i == iz * (nx * ny) + iy * nx + ix,
    ;
    lemma_fundamental_div_mod_converse(i, nx, iz * ny + iy, ix);
    lemma_fundamental_div_mod_converse(iz * ny + iy, ny, iz, iy);
    assert(0 <= iy * nx + ix < nx * ny) by (nonlinear_arith)
        requires
            0 <= ix < nx,
            0 <= iy < ny,
    ;
    assert(i == iz * (nx * ny) + (iy * nx + ix));
    lemma_fundamental_div_mod_converse(i, nx * ny, iz, iy * nx + ix);
}

impl Grid2D {
    /// A grid has one list of cell centers.
    pub proof fn centers_are_unique<F: Fn(Op, Double, Double) -> Double>(
        self,
        ar: Arithmetic<F>,
        a: Seq<[Double; 2]>,
        b: Seq<[Double; 2]>,
    )
        requires
            self.are_centers(ar, a),
            self.are_centers(ar, b),
        ensures
            a == b,
    {
        assert forall|i: int| 0 <= i < a.len() implies a[i] == b[i] by {
            assert(a[i]@ == b[i]@);
            assert(a[i] =~= b[i]);
        }
        assert(a =~= b);
    }
}

impl Grid3D {
    /// A grid has one list of cell centers.
    pub proof fn centers_are_unique<F: Fn(Op, Double, Double) -> Double>(
        self,
        ar: Arithmetic<F>,
        a: Seq<[Double; 3]>,
        b: Seq<[Double; 3]>,
    )
        requires
            self.are_centers(ar, a),
            self.are_centers(ar, b),
        ensures
            a == b,
    {
        assert forall|i: int| 0 <= i < a.len() implies a[i] == b[i] by {
            assert(a[i]@ == b[i]@);
            assert(a[i] =~= b[i]);
        }
        assert(a =~= b);
    }
}

} // verus!

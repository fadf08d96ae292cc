//! Ordinary co-kriging under a linear model of coregionalization. The weights
//! of the primary variable sum to one, those of each secondary variable to
//! zero.

use vstd::prelude::*;

use crate::arith::{num, Arithmetic, MINUS_ZERO, Op};
use crate::data::PointSet;
use crate::double::{Double, HIDDEN, ONE};
use crate::error::{
    invalid, invalid_of, invalid_parameter, mismatch, mismatched, GeostatError,
};
use crate::grid::Grid2D;
use crate::kriging::{
    are_block_offsets, block_gap, block_offsets, copy_values, fill_nan, lemma_holdable, or_nan,
    unzip, values_of_estimates, variances_of_estimates, KrigingEstimate,
};
use crate::linalg::{lemma_reported_is_singular, regular, reports_pivot, solution, solve};
use crate::lmc::Lmc;
use crate::matrix::{holdable, Matrix};
use crate::model::{check_radius, radius_ok};
use crate::neighborhood::{conditions, Lookup};
use crate::parallel::par_map;
use crate::text::{counts_text, digits};

verus! {

/// Search configuration, applied per variable.
#[derive(Debug, Clone, Copy, PartialEq, Eq, Structural)]
pub struct CoKrigingConfig {
    /// Maximum nearest neighbors per variable (all points when unset).
    pub max_neighbors: Option<usize>,
    /// Search radius per variable.
    pub search_radius: Option<Double>,
    /// Relative ridge on the diagonal between data: each entry is multiplied by
    /// one plus the ridge. Zero keeps the exact system.
    pub ridge: Double,
}

impl Default for CoKrigingConfig {
    /// All points, no ridge.
    fn default() -> (r: Self)
        ensures
            r.max_neighbors is None,
            r.search_radius is None,
            r.ridge == num(0),
    {
        CoKrigingConfig { max_neighbors: None, search_radius: None, ridge: Double::zero() }
    }
}

/// The data, the model and the configuration are in order.
pub open spec fn cokriging_ok(n_data: nat, n_vars: nat, config: CoKrigingConfig) -> bool {
    &&& n_data >= 2
    &&& n_data == n_vars
    &&& config.max_neighbors != Some(0usize)
    &&& radius_ok(config.search_radius)
}

/// Why they are not: the first check that fails.
pub open spec fn cokriging_refused(
    n_data: nat,
    n_vars: nat,
    config: CoKrigingConfig,
    e: GeostatError,
) -> bool {
    if n_data < 2 {
        invalid(e, "co-kriging needs a primary and at least one secondary variable"@)
    } else if n_data != n_vars {
        mismatch(e, digits(n_data) + " datasets vs "@ + digits(n_vars) + " LMC variables"@)
    } else if config.max_neighbors == Some(0usize) {
        invalid(e, "max_neighbors must be at least 1"@)
    } else {
        invalid_of(e, "search radius must be positive, got {}"@, seq![config.search_radius->0])
    }
}

/// A conditioning point: its variable and its position among the variable's
/// points.
pub type Member = (usize, usize);

/// The points `nb` of variable `v`.
pub open spec fn members_of(v: usize, nb: Seq<usize>) -> Seq<Member> {
    Seq::new(nb.len(), |i: int| (v, nb[i]))
}

/// The conditioning points of the first `n` variables, variable by variable.
pub open spec fn gathered(nbs: Seq<Seq<usize>>, n: nat) -> Seq<Member>
    decreases n,
{
    if n == 0 {
        Seq::empty()
    } else {
        gathered(nbs, (n - 1) as nat) + members_of((n - 1) as usize, nbs[n - 1])
    }
}

/// The data, model and configuration of a predictor.
pub struct CoSetting<'a, const D: usize, G> {
    /// The data by variable, the primary first.
    pub datasets: Vec<&'a PointSet<D>>,
    /// The model.
    pub lmc: &'a Lmc<D, G>,
    /// Search neighborhood and ridge.
    pub config: CoKrigingConfig,
}

/// Number of points in the first `n` data sets.
pub open spec fn points_in<'a, const D: usize>(datasets: Seq<&'a PointSet<D>>, n: nat) -> nat
    decreases n,
{
    if n == 0 {
        0
    } else {
        points_in(datasets, (n - 1) as nat) + datasets[n - 1].places().len()
    }
}

/// The data sets can be searched, and the largest system be held in memory.
pub open spec fn searchable<'a, const D: usize>(datasets: Seq<&'a PointSet<D>>) -> bool {
    let most = points_in(datasets, datasets.len()) + datasets.len();
    &&& 0 < D
    &&& most <= usize::MAX
    &&& holdable(most, most)
    &&& forall|v: int|
        0 <= v < datasets.len() ==> (#[trigger] datasets[v]).well_formed()
            && datasets[v].places().len() <= u32::MAX
}

impl<'a, const D: usize, G> CoSetting<'a, D, G> {
    /// Place of a conditioning point.
    pub open spec fn place(&self, m: Member) -> Seq<Double> {
        self.datasets@[m.0 as int].places()[m.1 as int]@
    }

    /// Value of a conditioning point.
    pub open spec fn value_at(&self, m: Member) -> Double {
        self.datasets@[m.0 as int].attributes()[m.1 as int]
    }

    /// The conditioning points are data points.
    pub open spec fn holds(&self, ms: Seq<Member>) -> bool {
        forall|r: int|
            0 <= r < ms.len() ==> (#[trigger] ms[r]).0 < self.datasets@.len() && ms[r].1
                < self.datasets@[ms[r].0 as int].places().len()
    }

    /// `nbs` are the conditioning points of a target, by variable.
    pub open spec fn neighborhoods<F: Fn(Op, Double, Double) -> Double>(
        &self,
        ar: Arithmetic<F>,
        target: [Double; D],
        nbs: Seq<Seq<usize>>,
    ) -> bool {
        &&& nbs.len() == self.datasets@.len()
        &&& forall|v: int|
            0 <= v < nbs.len() ==> conditions(
                ar,
                self.datasets@[v].places(),
                self.config.max_neighbors,
                self.config.search_radius,
                target,
                #[trigger] nbs[v],
            )
    }
}

impl<'a, const D: usize, G: Fn([Double; D]) -> Double> CoSetting<'a, D, G> {
    /// Everything is in order.
    pub open spec fn well_formed(&self) -> bool {
        &&& cokriging_ok(self.datasets@.len(), self.lmc.variables(), self.config)
        &&& searchable(self.datasets@)
        &&& self.lmc.well_formed()
        &&& self.lmc.total()
    }

    /// Entry of the co-kriging matrix.
    pub open spec fn cell<F: Fn(Op, Double, Double) -> Double>(
        &self,
        ar: Arithmetic<F>,
        ms: Seq<Member>,
        r: int,
        c: int,
    ) -> Double {
        let n = ms.len();
        if r < n && c < n {
            let (a, b) = if r < c {
                (ms[r], ms[c])
            } else {
                (ms[c], ms[r])
            };
            let cov = self.lmc.cross(
                ar,
                a.0 as int,
                b.0 as int,
                ar.separation(self.place(a), self.place(b)),
            );
            if r == c && self.config.ridge.is_positive() {
                ar.times(cov, ar.plus(num(ONE), self.config.ridge))
            } else {
                cov
            }
        } else if r < n {
            if ms[r].0 == c - n {
                num(ONE)
            } else {
                num(0)
            }
        } else if c < n {
            if ms[c].0 == r - n {
                num(ONE)
            } else {
                num(0)
            }
        } else {
            num(0)
        }
    }

    /// The co-kriging matrix: cross-covariances between the data, then one
    /// unbiasedness constraint per variable.
    pub open spec fn lhs<F: Fn(Op, Double, Double) -> Double>(
        &self,
        ar: Arithmetic<F>,
        ms: Seq<Member>,
    ) -> Seq<Seq<Double>> {
        let dim = ms.len() + self.datasets@.len();
        Seq::new(dim, |r: int| Seq::new(dim, |c: int| self.cell(ar, ms, r, c)))
    }

    /// Cross-covariance of a conditioning point with the target, or its mean
    /// over the discretization points of the block.
    pub open spec fn to_target<F: Fn(Op, Double, Double) -> Double>(
        &self,
        ar: Arithmetic<F>,
        m: Member,
        center: Seq<Double>,
        offsets: Option<Seq<[Double; D]>>,
    ) -> Double {
        match offsets {
            None => self.lmc.cross(
                ar,
                m.0 as int,
                0,
                ar.separation(self.place(m), center),
            ),
            Some(offs) => ar.over(
                ar.accumulated(self.to_offsets(ar, m, center, offs)),
                Double::count(offs.len()),
            ),
        }
    }

    /// Cross-covariances of a conditioning point with the discretization points
    /// of a block.
    pub open spec fn to_offsets<F: Fn(Op, Double, Double) -> Double>(
        &self,
        ar: Arithmetic<F>,
        m: Member,
        center: Seq<Double>,
        offs: Seq<[Double; D]>,
    ) -> Seq<Double> {
        Seq::new(
            offs.len(),
            |u: int|
                self.lmc.cross(
                    ar,
                    m.0 as int,
                    0,
                    block_gap(ar, self.place(m), center, offs[u]@),
                ),
        )
    }

    /// Right-hand side: covariances with the target, then the constraints.
    pub open spec fn rhs<F: Fn(Op, Double, Double) -> Double>(
        &self,
        ar: Arithmetic<F>,
        ms: Seq<Member>,
        center: Seq<Double>,
        offsets: Option<Seq<[Double; D]>>,
    ) -> Seq<Double> {
        Seq::new(
            ms.len() + self.datasets@.len(),
            |r: int|
                if r < ms.len() {
                    self.to_target(ar, ms[r], center, offsets)
                } else if r == ms.len() {
                    num(ONE)
                } else {
                    num(0)
                },
        )
    }

    /// Sum over the offsets `v < n` of the covariance of offsets `u` and `v`,
    /// starting from `start`; the nugget is left out of that of an offset with
    /// itself.
    pub open spec fn offset_row<F: Fn(Op, Double, Double) -> Double>(
        &self,
        ar: Arithmetic<F>,
        offs: Seq<[Double; D]>,
        u: int,
        n: int,
        start: Double,
    ) -> Double
        decreases n,
    {
        if n <= 0 {
            start
        } else {
            ar.plus(
                self.offset_row(ar, offs, u, n - 1, start),
                if n - 1 == u {
                    ar.minus(self.lmc.cosill(ar, 0, 0), self.lmc.nugget@[0]@[0])
                } else {
                    self.lmc.cross(ar, 0, 0, ar.separation(offs[u]@, offs[n - 1]@))
                },
            )
        }
    }

    /// Sum of the covariances of all pairs of offsets, for the first `n`.
    pub open spec fn offset_sum<F: Fn(Op, Double, Double) -> Double>(
        &self,
        ar: Arithmetic<F>,
        offs: Seq<[Double; D]>,
        n: int,
    ) -> Double
        decreases n,
    {
        if n <= 0 {
            num(0)
        } else {
            self.offset_row(
                ar,
                offs,
                n - 1,
                offs.len() as int,
                self.offset_sum(ar, offs, n - 1),
            )
        }
    }

    /// Variance of the target: the primary's total sill, or the mean covariance
    /// within the block.
    pub open spec fn target_variance<F: Fn(Op, Double, Double) -> Double>(
        &self,
        ar: Arithmetic<F>,
        offsets: Option<Seq<[Double; D]>>,
    ) -> Double {
        match offsets {
            None => self.lmc.cosill(ar, 0, 0),
            Some(offs) => ar.over(
                self.offset_sum(ar, offs, offs.len() as int),
                Double::count(offs.len() * offs.len()),
            ),
        }
    }

    /// Values of conditioning points.
    pub open spec fn values_at(&self, ms: Seq<Member>) -> Seq<Double> {
        Seq::new(ms.len(), |r: int| self.value_at(ms[r]))
    }

    /// The estimate of weights.
    pub open spec fn weighted<F: Fn(Op, Double, Double) -> Double>(
        &self,
        ar: Arithmetic<F>,
        ms: Seq<Member>,
        w: Seq<Double>,
        b: Seq<Double>,
        offsets: Option<Seq<[Double; D]>>,
    ) -> KrigingEstimate {
        KrigingEstimate {
            value: ar.dot_from(num(0), w, self.values_at(ms), ms.len() as int),
            variance: ar.minus(
                self.target_variance(ar, offsets),
                ar.dot_from(num(MINUS_ZERO), w, b, b.len() as int),
            ).max(num(0)),
            lagrange: Some(w[ms.len() as int]),
        }
    }

    /// What co-kriging with these conditioning points gives; `none` tells that
    /// none of them is of the primary variable.
    pub open spec fn cokriged<F: Fn(Op, Double, Double) -> Double>(
        &self,
        ar: Arithmetic<F>,
        center: [Double; D],
        offsets: Option<Seq<[Double; D]>>,
        none: bool,
        ms: Seq<Member>,
        r: Result<KrigingEstimate, GeostatError>,
    ) -> bool {
        let b = self.rhs(ar, ms, center@, offsets);
        if none {
            r matches Err(e) && e == GeostatError::NoNeighbors
        } else if !regular(ar, self.lhs(ar, ms)) {
            r matches Err(e) && reports_pivot(ar, self.lhs(ar, ms), e)
        } else {
            r matches Ok(e) && exists|w: Seq<Double>| #[trigger]
                solution(ar, self.lhs(ar, ms), b, w) && e == self.weighted(ar, ms, w, b, offsets)
        }
    }

    /// What prediction gives.
    pub open spec fn predicted<F: Fn(Op, Double, Double) -> Double>(
        &self,
        ar: Arithmetic<F>,
        center: [Double; D],
        offsets: Option<Seq<[Double; D]>>,
        r: Result<KrigingEstimate, GeostatError>,
    ) -> bool {
        exists|nbs: Seq<Seq<usize>>| #[trigger]
            self.neighborhoods(ar, center, nbs) && self.cokriged(
                ar,
                center,
                offsets,
                nbs[0].len() == 0,
                gathered(nbs, nbs.len()),
                r,
            )
    }

    /// What block prediction gives.
    pub open spec fn block_predicted<F: Fn(Op, Double, Double) -> Double>(
        &self,
        ar: Arithmetic<F>,
        center: [Double; D],
        offsets: Seq<[Double; D]>,
        r: Result<KrigingEstimate, GeostatError>,
    ) -> bool {
        if offsets.len() == 0 {
            r matches Err(e) && invalid(e, "block discretization needs at least one point"@)
        } else {
            self.predicted(ar, center, Some(offsets), r)
        }
    }

    /// The co-kriging matrix is symmetric.
    pub proof fn system_is_symmetric<F: Fn(Op, Double, Double) -> Double>(
        &self,
        ar: Arithmetic<F>,
        ms: Seq<Member>,
        r: int,
        c: int,
    )
        requires
            0 <= r < ms.len() + self.datasets@.len(),
            0 <= c < ms.len() + self.datasets@.len(),
        ensures
            self.lhs(ar, ms)[r][c] == self.lhs(ar, ms)[c][r],
    {
    }

    fn coord_of(&self, m: Member) -> (p: [Double; D])
        requires
            self.well_formed(),
            m.0 < self.datasets@.len(),
            m.1 < self.datasets@[m.0 as int].places().len(),
        ensures
            p@ == self.place(m),
    {
        assert(self.datasets@[m.0 as int].well_formed());
        self.datasets[m.0].coord(m.1)
    }

    fn entry<F: Fn(Op, Double, Double) -> Double>(
        &self,
        ms: &Vec<Member>,
        r: usize,
        c: usize,
        ar: &Arithmetic<F>,
    ) -> (x: Double)
        requires
            self.well_formed(),
            self.holds(ms@),
            ar.total(),
            r < ms@.len() + self.datasets@.len(),
            c < ms@.len() + self.datasets@.len(),
        ensures
            x == self.cell(*ar, ms@, r as int, c as int),
    {
        let n: usize = ms.len();
        if r < n && c < n {
            let (a, b): (Member, Member) = if r < c {
                (ms[r], ms[c])
            } else {
                (ms[c], ms[r])
            };
            let p: [Double; D] = self.coord_of(a);
            let q: [Double; D] = self.coord_of(b);
            let cov: Double = self.lmc.covariance_dh(a.0, b.0, ar.sep(&p, &q), ar);
            if r == c && self.config.ridge.is_positive() {
                ar.times(cov, ar.plus(num(ONE), self.config.ridge))
            } else {
                cov
            }
        } else if r < n {
            if ms[r].0 == c - n {
                num(ONE)
            } else {
                Double::zero()
            }
        } else if c < n {
            if ms[c].0 == r - n {
                num(ONE)
            } else {
                Double::zero()
            }
        } else {
            Double::zero()
        }
    }

    fn build_lhs<F: Fn(Op, Double, Double) -> Double>(
        &self,
        ms: &Vec<Member>,
        ar: &Arithmetic<F>,
    ) -> (a: Matrix)
        requires
            self.well_formed(),
            self.holds(ms@),
            ar.total(),
            ms@.len() <= points_in(self.datasets@, self.datasets@.len()),
        ensures
            a.square(ms@.len() + self.datasets@.len()),
            a.rows() == self.lhs(*ar, ms@),
    {
        let dim: usize = ms.len() + self.datasets.len();
        let ghost want = self.lhs(*ar, ms@);
        let mut rows: Vec<Vec<Double>> = Vec::new();
        for r in 0..dim
            invariant
                self.well_formed(),
                self.holds(ms@),
                ar.total(),
                dim == ms@.len() + self.datasets@.len(),
                want == self.lhs(*ar, ms@),
                rows.len() == r,
                forall|j: int| 0 <= j < r ==> (#[trigger] rows@[j])@ == want[j],
        {
            let mut row: Vec<Double> = Vec::new();
            for c in 0..dim
                invariant
                    self.well_formed(),
                    self.holds(ms@),
                    ar.total(),
                    dim == ms@.len() + self.datasets@.len(),
                    want == self.lhs(*ar, ms@),
                    r < dim,
                    row@ =~= want[r as int].take(c as int),
            {
                row.push(self.entry(ms, r, c, ar));
            }
            assert(row@ =~= want[r as int]);
            rows.push(row);
        }
        proof {
            lemma_holdable(
                dim as nat,
                points_in(self.datasets@, self.datasets@.len()) + self.datasets@.len(),
            );
            assert forall|j: int| 0 <= j < dim implies (#[trigger] rows@[j]).len() == dim by {
                assert(rows@[j]@ == want[j]);
            }
        }
        let a: Matrix = Matrix::from_rows(&rows, dim);
        assert(a.rows() =~= want);
        a
    }

    fn cover<F: Fn(Op, Double, Double) -> Double>(
        &self,
        m: Member,
        center: &[Double; D],
        offsets: Option<&Vec<[Double; D]>>,
        ar: &Arithmetic<F>,
    ) -> (x: Double)
        requires
            self.well_formed(),
            ar.total(),
            m.0 < self.datasets@.len(),
            m.1 < self.datasets@[m.0 as int].places().len(),
            offsets matches Some(o) ==> o@.len() < 2 * HIDDEN,
        ensures
            x == self.to_target(*ar, m, center@, offset_list(offsets)),
    {
        let p: [Double; D] = self.coord_of(m);
        match offsets {
            None => self.lmc.covariance_dh(m.0, 0, ar.sep(&p, center), ar),
            Some(offs) => {
                let mut covs: Vec<Double> = Vec::new();
                for u in 0..offs.len()
                    invariant
                        self.well_formed(),
                        ar.total(),
                        m.0 < self.datasets@.len(),
                        p@ == self.place(m),
                        covs@ =~= self.to_offsets(*ar, m, center@, offs@).take(u as int),
                {
                    let off: [Double; D] = offs[u];
                    let mut dh: [Double; D] = p;
                    for k in 0..D
                        invariant
                            ar.total(),
                            forall|i: int|
                                0 <= i < k ==> #[trigger] dh@[i] == ar.minus(
                                    p@[i],
                                    ar.plus(center@[i], off@[i]),
                                ),
                    {
                        dh[k] = ar.minus(p[k], ar.plus(center[k], off[k]));
                    }
                    assert(dh@ =~= block_gap(*ar, p@, center@, off@));
                    covs.push(self.lmc.covariance_dh(m.0, 0, dh, ar));
                }
                assert(covs@ =~= self.to_offsets(*ar, m, center@, offs@));
                ar.over(ar.accumulate(&covs), Double::from_count(offs.len()))
            },
        }
    }

    fn build_rhs<F: Fn(Op, Double, Double) -> Double>(
        &self,
        ms: &Vec<Member>,
        center: &[Double; D],
        offsets: Option<&Vec<[Double; D]>>,
        ar: &Arithmetic<F>,
    ) -> (b: Vec<Double>)
        requires
            self.well_formed(),
            self.holds(ms@),
            ar.total(),
            ms@.len() + self.datasets@.len() <= usize::MAX,
            offsets matches Some(o) ==> o@.len() < 2 * HIDDEN,
        ensures
            b@ == self.rhs(*ar, ms@, center@, offset_list(offsets)),
    {
        let ghost want = self.rhs(*ar, ms@, center@, offset_list(offsets));
        let n: usize = ms.len();
        let dim: usize = n + self.datasets.len();
        let mut b: Vec<Double> = Vec::new();
        for r in 0..dim
            invariant
                self.well_formed(),
                self.holds(ms@),
                ar.total(),
                n == ms@.len(),
                dim == n + self.datasets@.len(),
                offsets matches Some(o) ==> o@.len() < 2 * HIDDEN,
                want == self.rhs(*ar, ms@, center@, offset_list(offsets)),
                b@ =~= want.take(r as int),
        {
            if r < n {
                b.push(self.cover(ms[r], center, offsets, ar));
            } else if r == n {
                b.push(num(ONE));
            } else {
                b.push(Double::zero());
            }
        }
        assert(b@ =~= want);
        b
    }

    fn find_target_variance<F: Fn(Op, Double, Double) -> Double>(
        &self,
        offsets: Option<&Vec<[Double; D]>>,
        ar: &Arithmetic<F>,
    ) -> (x:
        Double)
        requires
            self.well_formed(),
            ar.total(),
            offsets matches Some(o) ==> o@.len() * o@.len() < 2 * HIDDEN && o@.len() * o@.len()
                <= usize::MAX,
        ensures
            x == self.target_variance(*ar, offset_list(offsets)),
    {
        match offsets {
            None => self.lmc.total_sill(0, 0, ar),
            Some(offs) => {
                let near: Double = ar.minus(
                    self.lmc.total_sill(0, 0, ar),
                    self.lmc.nugget_of(0, 0),
                );
                let mut sum: Double = Double::zero();
                for u in 0..offs.len()
                    invariant
                        self.well_formed(),
                        ar.total(),
                        near == ar.minus(self.lmc.cosill(*ar, 0, 0), self.lmc.nugget@[0]@[0]),
                        sum == self.offset_sum(*ar, offs@, u as int),
                {
                    let ghost start = sum;
                    for v in 0..offs.len()
                        invariant
                            self.well_formed(),
                            ar.total(),
                            near == ar.minus(self.lmc.cosill(*ar, 0, 0), self.lmc.nugget@[0]@[0]),
                            u < offs.len(),
                            sum == self.offset_row(*ar, offs@, u as int, v as int, start),
                    {
                        let c: Double = if u == v {
                            near
                        } else {
                            self.lmc.covariance_dh(0, 0, ar.sep(&offs[u], &offs[v]), ar)
                        };
                        sum = ar.plus(sum, c);
                    }
                }
                ar.over(sum, Double::from_count(offs.len() * offs.len()))
            },
        }
    }
}

/// The offsets behind a reference.
pub open spec fn offset_list<const D: usize>(offsets: Option<&Vec<[Double; D]>>) -> Option<
    Seq<[Double; D]>,
> {
    match offsets {
        Some(o) => Some(o@),
        None => None,
    }
}

/// Ordinary co-kriging predictor. The first data set is that of the primary
/// variable, which is predicted; the rest are secondaries. The data sets need
/// not share their places.
pub struct CoKriging<'a, const D: usize, G> {
    setting: CoSetting<'a, D, G>,
    lookups: Vec<Lookup<D>>,
}

impl<'a, const D: usize, G: Fn([Double; D]) -> Double> CoKriging<'a, D, G> {
    /// Data, model and configuration.
    pub closed spec fn setting(&self) -> CoSetting<'a, D, G> {
        self.setting
    }

    /// The lookups are those of the data.
    pub closed spec fn well_formed(&self) -> bool {
        &&& self.setting.well_formed()
        &&& self.lookups@.len() == self.setting.datasets@.len()
        &&& forall|v: int|
            0 <= v < self.lookups@.len() ==> {
                &&& (#[trigger] self.lookups@[v]).well_formed()
                &&& self.lookups@[v].places() == self.setting.datasets@[v].places()
                &&& self.lookups@[v].most() == self.setting.config.max_neighbors
                &&& self.lookups@[v].reach() == self.setting.config.search_radius
            }
    }

    /// The predictor can predict.
    pub open spec fn ready<F: Fn(Op, Double, Double) -> Double>(&self, ar: &Arithmetic<F>) -> bool {
        self.well_formed() && ar.ieee()
    }

    /// Builds the predictor, validating dimensions.
    pub fn new(
        datasets: Vec<&'a PointSet<D>>,
        lmc: &'a Lmc<D, G>,
        config: CoKrigingConfig,
    ) -> (r: Result<Self, GeostatError>)
        requires
            searchable(datasets@),
            lmc.well_formed(),
            lmc.total(),
        ensures
            match r {
                Ok(k) => {
                    &&& cokriging_ok(datasets@.len(), lmc.variables(), config)
                    &&& k.well_formed()
                    &&& k.setting().datasets@ == datasets@
                    &&& k.setting().lmc == lmc
                    &&& k.setting().config == config
                },
                Err(e) => {
                    &&& !cokriging_ok(datasets@.len(), lmc.variables(), config)
                    &&& cokriging_refused(datasets@.len(), lmc.variables(), config, e)
                },
            },
    {
        if datasets.len() < 2 {
            return Err(
                invalid_parameter(
                    "co-kriging needs a primary and at least one secondary variable",
                ),
            );
        }
        if datasets.len() != lmc.n_vars() {
            return Err(
                mismatched(
                    counts_text(datasets.len(), " datasets vs ", lmc.n_vars(), " LMC variables"),
                ),
            );
        }
        if let Some(k) = config.max_neighbors {
            if k == 0 {
                return Err(invalid_parameter("max_neighbors must be at least 1"));
            }
        }
        match check_radius(config.search_radius) {
            Err(e) => {
                return Err(e);
            },
            Ok(_) => {},
        }
        let mut lookups: Vec<Lookup<D>> = Vec::new();
        for v in 0..datasets.len()
            invariant
                searchable(datasets@),
                lookups.len() == v,
                forall|i: int|
                    0 <= i < v ==> {
                        &&& (#[trigger] lookups@[i]).well_formed()
                        &&& lookups@[i].places() == datasets@[i].places()
                        &&& lookups@[i].most() == config.max_neighbors
                        &&& lookups@[i].reach() == config.search_radius
                    },
        {
            assert(datasets@[v as int].well_formed());
            lookups.push(
                Lookup::new(datasets[v].coords(), config.max_neighbors, config.search_radius),
            );
        }
        Ok(CoKriging { setting: CoSetting { datasets, lmc, config }, lookups })
    }

    /// Conditioning points of a target, variable by variable, and whether the
    /// primary variable has none.
    fn gather<F: Fn(Op, Double, Double) -> Double>(
        &self,
        target: [Double; D],
        ar: &Arithmetic<F>,
    ) -> (out: (bool, Vec<Member>))
        requires
            self.ready(ar),
        ensures
            self.setting().holds(out.1@),
            out.1@.len() <= points_in(
                self.setting().datasets@,
                self.setting().datasets@.len(),
            ),
            exists|nbs: Seq<Seq<usize>>| #[trigger]
                self.setting().neighborhoods(*ar, target, nbs) && out.0 == (nbs[0].len() == 0)
                    && out.1@ == gathered(nbs, nbs.len()),
    {
        let ghost mut nbs: Seq<Seq<usize>> = Seq::empty();
        let mut none: bool = true;
        let mut ms: Vec<Member> = Vec::new();
        let n: usize = self.setting.datasets.len();
        for v in 0..n
            invariant
                self.ready(ar),
                n == self.setting.datasets@.len(),
                nbs.len() == v,
                forall|i: int|
                    0 <= i < v ==> conditions(
                        *ar,
                        self.setting.datasets@[i].places(),
                        self.setting.config.max_neighbors,
                        self.setting.config.search_radius,
                        target,
                        #[trigger] nbs[i],
                    ),
                v > 0 ==> none == (nbs[0].len() == 0),
                ms@ == gathered(nbs, v as nat),
                self.setting.holds(ms@),
                ms@.len() <= points_in(self.setting.datasets@, v as nat),
        {
            assert(self.lookups@[v as int].well_formed());
            let nb: Vec<usize> = self.lookups[v].around(target, ar);
            if v == 0 {
                none = nb.len() == 0;
            }
            let ghost before = ms@;
            for i in 0..nb.len()
                invariant
                    self.setting.holds(ms@),
                    v < self.setting.datasets@.len(),
                    forall|j: int|
                        0 <= j < nb.len() ==> (#[trigger] nb@[j])
                            < self.setting.datasets@[v as int].places().len(),
                    ms@ =~= before + members_of(v, nb@).take(i as int),
            {
                ms.push((v, nb[i]));
            }
            proof {
                let old_nbs = nbs;
                nbs = nbs.push(nb@);
                lemma_gathered(old_nbs, nbs, v as nat);
                assert(members_of(v, nb@).take(nb.len() as int) =~= members_of(v, nb@));
            }
        }
        proof {
            assert(self.setting().neighborhoods(*ar, target, nbs));
        }
        (none, ms)
    }

    fn predict_inner<F: Fn(Op, Double, Double) -> Double>(
        &self,
        center: [Double; D],
        offsets: Option<&Vec<[Double; D]>>,
        ar: &Arithmetic<F>,
    ) -> (r: Result<KrigingEstimate, GeostatError>)
        requires
            self.ready(ar),
            offsets matches Some(o) ==> o@.len() < 2 * HIDDEN && o@.len() * o@.len() < 2 * HIDDEN
                && o@.len() * o@.len() <= usize::MAX,
        ensures
            self.setting().predicted(*ar, center, offset_list(offsets), r),
    {
        let (none, ms): (bool, Vec<Member>) = self.gather(center, ar);
        let ghost s = self.setting;
        let ghost nbs = choose|nbs: Seq<Seq<usize>>| #[trigger]
            s.neighborhoods(*ar, center, nbs) && none == (nbs[0].len() == 0) && ms@ == gathered(
                nbs,
                nbs.len(),
            );
        let ghost offs = offset_list(offsets);
        if none {
            assert(s.cokriged(*ar, center, offs, none, ms@, Err(GeostatError::NoNeighbors)));
            return Err(GeostatError::NoNeighbors);
        }
        let a: Matrix = self.setting.build_lhs(&ms, ar);
        let b: Vec<Double> = self.setting.build_rhs(&ms, &center, offsets, ar);
        let c_target: Double = self.setting.find_target_variance(offsets, ar);
        let b0: Vec<Double> = copy_values(&b);
        let ghost lhs = s.lhs(*ar, ms@);
        match solve(a, b, ar) {
            Err(e) => {
                proof {
                    lemma_reported_is_singular(*ar, lhs, e);
                    assert(s.cokriged(*ar, center, offs, none, ms@, Err(e)));
                }
                Err(e)
            },
            Ok(w) => {
                assert(solution(*ar, lhs, b0@, w@));
                let mut values: Vec<Double> = Vec::new();
                for r in 0..ms.len()
                    invariant
                        self.setting.well_formed(),
                        self.setting.holds(ms@),
                        values@ =~= self.setting.values_at(ms@).take(r as int),
                {
                    let m: Member = ms[r];
                    assert(self.setting.datasets@[m.0 as int].well_formed());
                    values.push(self.setting.datasets[m.0].value(m.1));
                }
                assert(values@ =~= s.values_at(ms@));
                let value: Double = ar.dot(Double::zero(), &w, &values, ms.len());
                let reduction: Double = ar.dot(num(MINUS_ZERO), &w, &b0, b0.len());
                let e: KrigingEstimate = KrigingEstimate {
                    value,
                    variance: ar.minus(c_target, reduction).max(Double::zero()),
                    lagrange: Some(w[ms.len()]),
                };
                assert(e == s.weighted(*ar, ms@, w@, b0@, offs));
                assert(s.cokriged(*ar, center, offs, none, ms@, Ok(e)));
                Ok(e)
            },
        }
    }

    /// Co-kriging estimate of the primary variable at a target location.
    pub fn predict<F: Fn(Op, Double, Double) -> Double>(
        &self,
        target: [Double; D],
        ar: &Arithmetic<F>,
    ) -> (r: Result<
        KrigingEstimate,
        GeostatError,
    >)
        requires
            self.ready(ar),
        ensures
            self.setting().predicted(*ar, target, None, r),
    {
        self.predict_inner(target, None, ar)
    }

    /// Block co-kriging: predicts the average of the primary variable over a
    /// block centered at `center`, discretized at `center + offsets[u]`.
    pub fn predict_block<F: Fn(Op, Double, Double) -> Double>(
        &self,
        center: [Double; D],
        offsets: &Vec<[Double; D]>,
        ar: &Arithmetic<F>,
    ) -> (r: Result<KrigingEstimate, GeostatError>)
        requires
            self.ready(ar),
            offsets@.len() < 2 * HIDDEN,
            offsets@.len() * offsets@.len() < 2 * HIDDEN,
            offsets@.len() * offsets@.len() <= usize::MAX,
        ensures
            self.setting().block_predicted(*ar, center, offsets@, r),
    {
        if offsets.len() == 0 {
            return Err(invalid_parameter("block discretization needs at least one point"));
        }
        self.predict_inner(center, Some(offsets), ar)
    }

    /// `e` is the estimate at the target, or NaN where prediction fails.
    pub open spec fn filled<F: Fn(Op, Double, Double) -> Double>(
        &self,
        ar: Arithmetic<F>,
        target: [Double; D],
        e: KrigingEstimate,
    ) -> bool {
        exists|r: Result<KrigingEstimate, GeostatError>| #[trigger]
            self.setting().predicted(ar, target, None, r) && e == or_nan(r)
    }

    fn predict_or_nan<F: Fn(Op, Double, Double) -> Double>(
        &self,
        target: [Double; D],
        ar: &Arithmetic<F>,
    ) -> (e: KrigingEstimate)
        requires
            self.ready(ar),
        ensures
            self.filled(*ar, target, e),
    {
        let r: Result<KrigingEstimate, GeostatError> = self.predict(target, ar);
        assert(self.setting().predicted(*ar, target, None, r));
        fill_nan(r)
    }

    /// `e` is the block estimate, or NaN where prediction fails.
    pub open spec fn block_filled<F: Fn(Op, Double, Double) -> Double>(
        &self,
        ar: Arithmetic<F>,
        center: [Double; D],
        offsets: Seq<[Double; D]>,
        e: KrigingEstimate,
    ) -> bool {
        exists|r: Result<KrigingEstimate, GeostatError>| #[trigger]
            self.setting().block_predicted(ar, center, offsets, r) && e == or_nan(r)
    }

    fn predict_block_or_nan<F: Fn(Op, Double, Double) -> Double>(
        &self,
        center: [Double; D],
        offsets: &Vec<[Double; D]>,
        ar: &Arithmetic<F>,
    ) -> (e: KrigingEstimate)
        requires
            self.ready(ar),
            offsets@.len() < 2 * HIDDEN,
            offsets@.len() * offsets@.len() < 2 * HIDDEN,
            offsets@.len() * offsets@.len() <= usize::MAX,
        ensures
            self.block_filled(*ar, center, offsets@, e),
    {
        let r: Result<KrigingEstimate, GeostatError> = self.predict_block(center, offsets, ar);
        assert(self.setting().block_predicted(*ar, center, offsets@, r));
        fill_nan(r)
    }
}

/// The gathered points of the first `n` variables do not depend on the rest.
proof fn lemma_gathered(a: Seq<Seq<usize>>, b: Seq<Seq<usize>>, n: nat)
    requires
        n <= a.len(),
        n <= b.len(),
        forall|i: int| 0 <= i < n ==> a[i] == #[trigger] b[i],
    ensures
        gathered(a, n) == gathered(b, n),
    decreases n,
{
    if n > 0 {
        lemma_gathered(a, b, (n - 1) as nat);
        assert(a[n - 1] == b[n - 1]);
    }
}

impl<'a, const D: usize, G: Fn([Double; D]) -> Double + Sync> CoKriging<'a, D, G> {
    /// `es` are the estimates at the targets, NaN where prediction fails.
    pub open spec fn estimates_all<F: Fn(Op, Double, Double) -> Double>(
        &self,
        ar: Arithmetic<F>,
        targets: Seq<[Double; D]>,
        es: Seq<KrigingEstimate>,
    ) -> bool {
        &&& es.len() == targets.len()
        &&& forall|i: int| 0 <= i < es.len() ==> self.filled(ar, targets[i], #[trigger] es[i])
    }

    /// Estimates at many targets, in parallel (NaN on failed systems).
    pub fn predict_many<F: Fn(Op, Double, Double) -> Double + Sync>(
        &self,
        targets: &Vec<[Double; D]>,
        ar: &Arithmetic<F>,
    ) -> (es: Vec<KrigingEstimate>)
        requires
            self.ready(ar),
        ensures
            self.estimates_all(*ar, targets@, es@),
    {
        let one = |i: usize| -> (e: KrigingEstimate)
            requires
                i < targets.len(),
                self.ready(ar),
            ensures
                self.filled(*ar, targets@[i as int], e),
            { self.predict_or_nan(targets[i], ar) };
        par_map(targets.len(), one)
    }
}

impl<'a, G: Fn([Double; 2]) -> Double + Sync> CoKriging<'a, 2, G> {
    /// `r` are the values and variances of estimates at the cell centers.
    pub open spec fn maps_grid<F: Fn(Op, Double, Double) -> Double>(
        &self,
        ar: Arithmetic<F>,
        grid: Grid2D,
        r: (Seq<Double>, Seq<Double>),
    ) -> bool {
        exists|centers: Seq<[Double; 2]>, es: Seq<KrigingEstimate>| #[trigger]
            self.estimates_all(ar, centers, es) && grid.are_centers(ar, centers) && r == (
                values_of_estimates(es),
                variances_of_estimates(es),
            )
    }

    /// Co-kriging over all grid cell centers: values and variances.
    pub fn predict_grid<F: Fn(Op, Double, Double) -> Double + Sync>(
        &self,
        grid: &Grid2D,
        ar: &Arithmetic<F>,
    ) -> (r: (Vec<Double>, Vec<Double>))
        requires
            self.ready(ar),
            grid.listable(),
        ensures
            self.maps_grid(*ar, *grid, (r.0@, r.1@)),
    {
        let centers: Vec<[Double; 2]> = grid.centers(ar);
        let es: Vec<KrigingEstimate> = self.predict_many(&centers, ar);
        assert(self.estimates_all(*ar, centers@, es@));
        unzip(&es)
    }

    /// `es` are the block estimates at the centers, NaN where prediction fails.
    pub open spec fn block_estimates_all<F: Fn(Op, Double, Double) -> Double>(
        &self,
        ar: Arithmetic<F>,
        centers: Seq<[Double; 2]>,
        offsets: Seq<[Double; 2]>,
        es: Seq<KrigingEstimate>,
    ) -> bool {
        &&& es.len() == centers.len()
        &&& forall|i: int|
            0 <= i < es.len() ==> self.block_filled(ar, centers[i], offsets, #[trigger] es[i])
    }

    /// `r` are the values and variances of block estimates over the cells.
    pub open spec fn maps_blocks<F: Fn(Op, Double, Double) -> Double>(
        &self,
        ar: Arithmetic<F>,
        grid: Grid2D,
        size: Seq<Double>,
        n: Seq<usize>,
        r: (Seq<Double>, Seq<Double>),
    ) -> bool {
        exists|
            centers: Seq<[Double; 2]>,
            offsets: Seq<[Double; 2]>,
            es: Seq<KrigingEstimate>,
        | #[trigger]
            self.block_estimates_all(ar, centers, offsets, es) && grid.are_centers(ar, centers)
                && are_block_offsets(ar, size, n, offsets) && r == (
                values_of_estimates(es),
                variances_of_estimates(es),
            )
    }

    /// Block co-kriging over all grid cells, with blocks of `block_size`
    /// discretized as a regular `discr[0]` x `discr[1]` point grid.
    pub fn predict_block_grid<F: Fn(Op, Double, Double) -> Double + Sync>(
        &self,
        grid: &Grid2D,
        block_size: [Double; 2],
        discr: [usize; 2],
        ar: &Arithmetic<F>,
    ) -> (r: Result<(Vec<Double>, Vec<Double>), GeostatError>)
        requires
            self.ready(ar),
            grid.listable(),
            discr@[0] < 2 * HIDDEN,
            discr@[1] < 2 * HIDDEN,
            discr@[0] * discr@[1] < 2 * HIDDEN,
            discr@[0] * discr@[1] <= usize::MAX,
            (discr@[0] * discr@[1]) * (discr@[0] * discr@[1]) < 2 * HIDDEN,
            (discr@[0] * discr@[1]) * (discr@[0] * discr@[1]) <= usize::MAX,
        ensures
            match r {
                Ok(out) => {
                    &&& discr@[0] > 0 && discr@[1] > 0
                    &&& block_size@[0].is_positive() && block_size@[1].is_positive()
                    &&& self.maps_blocks(*ar, *grid, block_size@, discr@, (out.0@, out.1@))
                },
                Err(e) => if discr@[0] == 0 || discr@[1] == 0 {
                    invalid(e, "block discretization needs at least 1 point per axis"@)
                } else {
                    &&& !block_size@[0].is_positive() || !block_size@[1].is_positive()
                    &&& invalid_of(e, "block size must be positive, got [{:?}, {:?}]"@, block_size@)
                },
            },
    {
        let offsets: Vec<[Double; 2]> = match block_offsets(block_size, discr, ar) {
            Ok(o) => o,
            Err(e) => {
                return Err(e);
            },
        };
        let centers: Vec<[Double; 2]> = grid.centers(ar);
        let cs: &Vec<[Double; 2]> = &centers;
        let os: &Vec<[Double; 2]> = &offsets;
        let one = |i: usize| -> (e: KrigingEstimate)
            requires
                i < cs.len(),
                os@.len() < 2 * HIDDEN,
                os@.len() * os@.len() < 2 * HIDDEN,
                os@.len() * os@.len() <= usize::MAX,
                self.ready(ar),
            ensures
                self.block_filled(*ar, cs@[i as int], os@, e),
            { self.predict_block_or_nan(cs[i], os, ar) };
        let es: Vec<KrigingEstimate> = par_map(centers.len(), one);
        assert(self.block_estimates_all(*ar, centers@, offsets@, es@));
        Ok(unzip(&es))
    }
}

} // verus!

//! Simple, ordinary, universal and external-drift kriging.

use vstd::prelude::*;

use crate::arith::{num, Arithmetic, HALF, LEAST, MINUS_ZERO, Op};
use crate::bucket_grid::{extents_of, widest};
use crate::covariance::{no_separation, zero_vector, Covariance};
use crate::data::{copy_points, has_duplicate, first_duplicate, highest, lowest, PointSet};
use crate::double::{Double, HIDDEN, NOT_A_NUMBER, ONE};
use crate::error::{
    insufficient, invalid, invalid_of, invalid_parameter, mismatch, mismatched, GeostatError,
    Message,
};
use crate::grid::Grid2D;
use crate::kdtree::{limit, spread, KdTree};
use crate::linalg::{
    lemma_exchanges, lemma_reported_is_singular, lu_factor, regular, reports_pivot, solution, solve, Lu,
};
use crate::matrix::{holdable, reach, Matrix};
use crate::neighborhood::count_up;
use crate::parallel::par_map;
use crate::search::{k_nearest_of, lemma_found_fit};
use crate::text::{concat2, concat3, concat4, concat5, counts_text, decimal, digits};

verus! {

/// Kriging flavor.
#[derive(Debug, Clone, Copy, PartialEq, Eq, Structural)]
pub enum KrigingMethod {
    /// Simple kriging with a known stationary mean.
    Simple {
        /// Known mean of the field.
        mean: Double,
    },
    /// Ordinary kriging (unknown constant mean).
    Ordinary,
    /// Universal kriging with a polynomial drift in the coordinates.
    Universal {
        /// Drift polynomial degree (1 = linear, 2 = quadratic).
        degree: u8,
    },
    /// Kriging with external drift: the mean is a linear function of `n_vars`
    /// known covariates supplied for both data and targets.
    ExternalDrift {
        /// Number of external drift variables.
        n_vars: usize,
    },
}

impl KrigingMethod {
    /// Number of drift basis functions in `dim` dimensions (0 for simple
    /// kriging). Degree-1 drift: `1 + dim` terms; degree-2: quadratic
    /// monomials added.
    pub open spec fn terms(self, dim: nat) -> nat {
        match self {
            KrigingMethod::Simple { .. } => 0,
            KrigingMethod::Ordinary => 1,
            KrigingMethod::Universal { degree } => if degree == 1 {
                1 + dim
            } else if degree == 2 {
                1 + dim + dim * (dim + 1) / 2
            } else {
                0
            },
            KrigingMethod::ExternalDrift { n_vars } => 1 + n_vars as nat,
        }
    }

    /// Number of drift basis functions in `dim` dimensions.
    pub fn n_drift(self, dim: usize) -> (m: usize)
        requires
            1 + dim + dim * (dim + 1) <= usize::MAX,
            self.terms(dim as nat) <= usize::MAX,
        ensures
            m == self.terms(dim as nat),
    {
        match self {
            KrigingMethod::Simple { .. } => 0,
            KrigingMethod::Ordinary => 1,
            KrigingMethod::Universal { degree } => {
                if degree == 1 {
                    1 + dim
                } else if degree == 2 {
                    1 + dim + dim * (dim + 1) / 2
                } else {
                    0
                }
            },
            KrigingMethod::ExternalDrift { n_vars } => 1 + n_vars,
        }
    }
}

/// Kriging configuration: method plus search neighborhood.
///
/// With `max_neighbors`, `search_radius` and `max_per_octant` unset, a global
/// neighborhood (all data points) is used. Neighbor distances are Euclidean
/// even for anisotropic models.
#[derive(Debug, Clone, Copy, PartialEq, Eq, Structural)]
pub struct KrigingConfig {
    /// Kriging flavor.
    pub method: KrigingMethod,
    /// Maximum number of nearest conditioning points per estimate.
    pub max_neighbors: Option<usize>,
    /// Maximum search distance for conditioning points.
    pub search_radius: Option<Double>,
    /// Minimum conditioning points per estimate: targets whose neighborhood is
    /// smaller fail with `NoNeighbors`.
    pub min_neighbors: Option<usize>,
    /// Maximum conditioning points taken per octant around the target
    /// (quadrants in 2-D).
    pub max_per_octant: Option<usize>,
}

impl Default for KrigingConfig {
    fn default() -> (c: KrigingConfig)
        ensures
            c == (KrigingConfig {
                method: KrigingMethod::Ordinary,
                max_neighbors: None,
                search_radius: None,
                min_neighbors: None,
                max_per_octant: None,
            }),
    {
        KrigingConfig {
            method: KrigingMethod::Ordinary,
            max_neighbors: None,
            search_radius: None,
            min_neighbors: None,
            max_per_octant: None,
        }
    }
}

impl KrigingConfig {
    /// All data points condition every estimate.
    pub open spec fn global(self) -> bool {
        self.max_neighbors is None && self.search_radius is None && self.max_per_octant is None
    }

    /// Fewest conditioning points of an estimate.
    pub open spec fn least(self) -> usize {
        match self.min_neighbors {
            Some(k) => k,
            None => 1,
        }
    }
}

/// A kriging estimate: predicted value and kriging variance.
#[derive(Debug, Clone, Copy, PartialEq, Eq, Structural)]
pub struct KrigingEstimate {
    /// Predicted value.
    pub value: Double,
    /// Kriging (estimation) variance, clamped at zero.
    pub variance: Double,
    /// Lagrange multiplier on the unbiasedness (constant) constraint, when
    /// present (ordinary/universal/external-drift kriging); `None` for simple
    /// kriging.
    pub lagrange: Option<Double>,
}

/// The estimate of a target whose system fails.
pub open spec fn nan_estimate() -> KrigingEstimate {
    KrigingEstimate { value: num(NOT_A_NUMBER), variance: num(NOT_A_NUMBER), lagrange: None }
}

/// The estimate, or NaN where there is none.
pub open spec fn or_nan(r: Result<KrigingEstimate, GeostatError>) -> KrigingEstimate {
    match r {
        Ok(e) => e,
        Err(_) => nan_estimate(),
    }
}

/// Sector around a target in which a point lies: for each axis, whether the
/// point lies at or beyond the target.
pub open spec fn sector<const D: usize>(p: [Double; D], target: [Double; D]) -> Seq<bool> {
    Seq::new(D as nat, |d: int| target@[d].at_most(p@[d]))
}

/// How many of the points lie in a sector.
pub open spec fn in_sector<const D: usize>(
    places: Seq<[Double; D]>,
    target: [Double; D],
    points: Seq<usize>,
    s: Seq<bool>,
) -> nat
    decreases points.len(),
{
    if points.len() == 0 {
        0
    } else {
        in_sector(places, target, points.drop_last(), s) + if sector(
            places[points.last() as int],
            target,
        ) == s {
            1nat
        } else {
            0nat
        }
    }
}

/// The points taken from a list, in its order, at most `per` from each sector.
pub open spec fn taken_by_sector<const D: usize>(
    places: Seq<[Double; D]>,
    target: [Double; D],
    list: Seq<usize>,
    per: nat,
) -> Seq<usize>
    decreases list.len(),
{
    if list.len() == 0 {
        Seq::empty()
    } else {
        let before = taken_by_sector(places, target, list.drop_last(), per);
        if in_sector(places, target, before, sector(places[list.last() as int], target)) < per {
            before.push(list.last())
        } else {
            before
        }
    }
}

/// The first `k` of a list, all of it without a limit.
pub open spec fn at_most_first(list: Seq<usize>, k: Option<usize>) -> Seq<usize> {
    match k {
        Some(k) => if k < list.len() {
            list.take(k as int)
        } else {
            list
        },
        None => list,
    }
}

/// Products of the normalized coordinates `a <= b`, for the first `n` axes `a`.
pub open spec fn quadratics<F: Fn(Op, Double, Double) -> Double>(
    ar: Arithmetic<F>,
    x: Seq<Double>,
    n: nat,
) -> Seq<Double>
    decreases n,
{
    if n == 0 {
        Seq::empty()
    } else {
        quadratics(ar, x, (n - 1) as nat) + Seq::new(
            (x.len() - (n - 1)) as nat,
            |t: int| ar.times(x[n - 1], x[n - 1 + t]),
        )
    }
}

/// What a kriging predictor is set up with.
pub struct Setting<'a, const D: usize, G> {
    /// The data.
    pub data: &'a PointSet<D>,
    /// The covariance model.
    pub model: &'a Covariance<D, G>,
    /// Method and search neighborhood.
    pub config: KrigingConfig,
    /// Center of the data, for a polynomial drift.
    pub center: [Double; D],
    /// Half the widest extent of the data, for a polynomial drift.
    pub scale: Double,
    /// External drift values by data point.
    pub drift_data: Vec<Vec<Double>>,
    /// Means of the external drift variables.
    pub drift_mean: Vec<Double>,
    /// Standard deviations of the external drift variables.
    pub drift_scale: Vec<Double>,
    /// Measurement-error variance by data point; none for error-free data.
    pub measurement_error: Vec<Double>,
}

impl<'a, const D: usize, G: Fn([Double; D]) -> Double> Setting<'a, D, G> {
    /// The parts fit together.
    pub open spec fn well_formed(&self) -> bool {
        &&& 0 < D
        &&& self.data.well_formed()
        &&& 0 < self.data.places().len() <= u32::MAX
        &&& self.model.total()
        &&& self.config.method matches KrigingMethod::Universal { degree } ==> 1 <= degree <= 2
        &&& self.config.method matches KrigingMethod::ExternalDrift { n_vars } ==> {
            &&& self.drift_data.len() == self.data.places().len()
            &&& self.drift_mean.len() == n_vars
            &&& self.drift_scale.len() == n_vars
            &&& forall|i: int|
                0 <= i < self.drift_data.len() ==> (#[trigger] self.drift_data@[i]).len() == n_vars
        }
        &&& self.config.min_neighbors matches Some(k) ==> k > 0
    }

    /// Number of drift terms.
    pub open spec fn terms(&self) -> nat {
        self.config.method.terms(D as nat)
    }

    /// The largest system can be held in memory.
    pub open spec fn fits(&self) -> bool {
        &&& 1 + D + D * (D + 1) <= usize::MAX
        &&& self.data.places().len() + self.terms() <= usize::MAX
        &&& holdable(
            self.data.places().len() + self.terms(),
            self.data.places().len() + self.terms(),
        )
    }

    /// Normalized coordinates of a point.
    pub open spec fn normalized<F: Fn(Op, Double, Double) -> Double>(
        &self,
        ar: Arithmetic<F>,
        p: Seq<Double>,
    ) -> Seq<Double> {
        Seq::new(D as nat, |d: int| ar.over(ar.minus(p[d], self.center@[d]), self.scale))
    }

    /// Drift basis at a point with the given covariates.
    pub open spec fn basis<F: Fn(Op, Double, Double) -> Double>(
        &self,
        ar: Arithmetic<F>,
        p: Seq<Double>,
        drift: Seq<Double>,
    ) -> Seq<Double> {
        match self.config.method {
            KrigingMethod::Simple { .. } => Seq::empty(),
            KrigingMethod::Ordinary => seq![num(ONE)],
            KrigingMethod::Universal { degree } => {
                let x = self.normalized(ar, p);
                let linear = seq![num(ONE)] + x;
                if degree == 2 {
                    linear + quadratics(ar, x, D as nat)
                } else {
                    linear
                }
            },
            KrigingMethod::ExternalDrift { n_vars } => seq![num(ONE)] + Seq::new(
                n_vars as nat,
                |k: int| ar.over(ar.minus(drift[k], self.drift_mean@[k]), self.drift_scale@[k]),
            ),
        }
    }

    /// Covariates of data point `i`.
    pub open spec fn drift_at(&self, i: int) -> Seq<Double> {
        if i < self.drift_data.len() {
            self.drift_data@[i]@
        } else {
            Seq::empty()
        }
    }

    /// Measurement-error variance of data point `i`.
    pub open spec fn error_at(&self, i: int) -> Double {
        if i < self.measurement_error.len() {
            self.measurement_error@[i]
        } else {
            num(0)
        }
    }

    /// Drift basis at data point `i`.
    pub open spec fn basis_at<F: Fn(Op, Double, Double) -> Double>(
        &self,
        ar: Arithmetic<F>,
        i: int,
    ) -> Seq<Double> {
        self.basis(ar, self.data.places()[i]@, self.drift_at(i))
    }

    /// Separation of two data points, the one earlier in the neighborhood
    /// first.
    pub open spec fn gap<F: Fn(Op, Double, Double) -> Double>(
        &self,
        ar: Arithmetic<F>,
        nb: Seq<usize>,
        r: int,
        c: int,
    ) -> Seq<Double> {
        let (a, b) = if r < c {
            (r, c)
        } else {
            (c, r)
        };
        ar.separation(self.data.places()[nb[a] as int]@, self.data.places()[nb[b] as int]@)
    }

    /// Entry of the kriging-system matrix.
    pub open spec fn lhs_cell<F: Fn(Op, Double, Double) -> Double>(
        &self,
        ar: Arithmetic<F>,
        nb: Seq<usize>,
        r: int,
        c: int,
    ) -> Double {
        let n = nb.len();
        if r < n && c < n {
            if r == c {
                ar.plus(
                    self.model.entry(ar, no_separation(D as nat)),
                    self.error_at(nb[r] as int),
                )
            } else {
                self.model.entry(ar, self.gap(ar, nb, r, c))
            }
        } else if r < n {
            self.basis_at(ar, nb[r] as int)[c - n]
        } else if c < n {
            self.basis_at(ar, nb[c] as int)[r - n]
        } else {
            num(0)
        }
    }

    /// The kriging-system matrix: the data-data block, the drift basis and the
    /// Lagrange constraints.
    pub open spec fn lhs<F: Fn(Op, Double, Double) -> Double>(
        &self,
        ar: Arithmetic<F>,
        nb: Seq<usize>,
    ) -> Seq<Seq<Double>> {
        let dim = nb.len() + self.terms();
        Seq::new(dim, |r: int| Seq::new(dim, |c: int| self.lhs_cell(ar, nb, r, c)))
    }

    /// Right-hand side: entries for the separations from the target, then its
    /// drift basis.
    pub open spec fn rhs<F: Fn(Op, Double, Double) -> Double>(
        &self,
        ar: Arithmetic<F>,
        nb: Seq<usize>,
        target: Seq<Double>,
        drift: Seq<Double>,
    ) -> Seq<Double> {
        Seq::new(
            nb.len() + self.terms(),
            |r: int|
                if r < nb.len() {
                    self.model.entry(
                        ar,
                        ar.separation(self.data.places()[nb[r] as int]@, target),
                    )
                } else {
                    self.basis(ar, target, drift)[r - nb.len()]
                },
        )
    }

    /// Values of the neighbors.
    pub open spec fn values_at(&self, nb: Seq<usize>) -> Seq<Double> {
        Seq::new(nb.len(), |i: int| self.data.attributes()[nb[i] as int])
    }

    /// Values of the neighbors, less a mean.
    pub open spec fn centered_at<F: Fn(Op, Double, Double) -> Double>(
        &self,
        ar: Arithmetic<F>,
        nb: Seq<usize>,
        mean: Double,
    ) -> Seq<Double> {
        Seq::new(nb.len(), |i: int| ar.minus(self.data.attributes()[nb[i] as int], mean))
    }

    /// The estimate that weights `w` give: `top` is the variance of what is
    /// predicted; without it the weighted entries are the variance.
    pub open spec fn weighted<F: Fn(Op, Double, Double) -> Double>(
        &self,
        ar: Arithmetic<F>,
        nb: Seq<usize>,
        w: Seq<Double>,
        b: Seq<Double>,
        top: Option<Double>,
    ) -> KrigingEstimate {
        let n = nb.len() as int;
        let reduction = match self.config.method {
            KrigingMethod::Simple { .. } => ar.dot_from(num(0), w, b, n),
            _ => ar.dot_from(num(MINUS_ZERO), w, b, b.len() as int),
        };
        let variance = match top {
            Some(c) => ar.minus(c, reduction),
            None => reduction,
        };
        match self.config.method {
            KrigingMethod::Simple { mean } => KrigingEstimate {
                value: ar.dot_from(mean, w, self.centered_at(ar, nb, mean), n),
                variance: variance.max(num(0)),
                lagrange: None,
            },
            _ => KrigingEstimate {
                value: ar.dot_from(num(MINUS_ZERO), w, self.values_at(nb), n),
                variance: variance.max(num(0)),
                lagrange: Some(w[n]),
            },
        }
    }

    /// Variance of the field, where the model has one.
    pub open spec fn top(&self) -> Option<Double> {
        if self.model.traits.has_power {
            None
        } else {
            Some(self.model.sill)
        }
    }

    /// `nb` are the conditioning points of a target, nearest first: all data
    /// points in storage order, the nearest within the radius, or the nearest
    /// by sector.
    pub open spec fn is_neighborhood<F: Fn(Op, Double, Double) -> Double>(
        &self,
        ar: Arithmetic<F>,
        target: [Double; D],
        nb: Seq<usize>,
    ) -> bool {
        let n = self.data.places().len();
        let d = spread(ar, self.data.places(), target);
        let r2 = limit(ar.square_radius(self.config.search_radius));
        if self.config.global() {
            nb == Seq::new(n, |i: int| i as usize)
        } else {
            match self.config.max_per_octant {
                None => {
                    let k = match self.config.max_neighbors {
                        Some(k) => k as nat,
                        None => n,
                    };
                    k_nearest_of(nb, k, d, n, r2)
                },
                Some(per) => exists|all: Seq<usize>| #[trigger]
                    k_nearest_of(all, n, d, n, r2) && nb == at_most_first(
                        taken_by_sector(self.data.places(), target, all, per as nat),
                        self.config.max_neighbors,
                    ),
            }
        }
    }

    /// What kriging with these conditioning points gives.
    pub open spec fn kriged<F: Fn(Op, Double, Double) -> Double>(
        &self,
        ar: Arithmetic<F>,
        target: [Double; D],
        drift: Seq<Double>,
        nb: Seq<usize>,
        r: Result<KrigingEstimate, GeostatError>,
    ) -> bool {
        let b = self.rhs(ar, nb, target@, drift);
        if nb.len() < self.config.least() {
            r matches Err(e) && e == GeostatError::NoNeighbors
        } else if nb.len() < self.terms() {
            r matches Err(e) && insufficient(
                e,
                digits(nb.len()) + " neighbors cannot support "@ + digits(self.terms())
                    + " drift terms"@,
            )
        } else if !regular(ar, self.lhs(ar, nb)) {
            r matches Err(e) && reports_pivot(ar, self.lhs(ar, nb), e)
        } else {
            r matches Ok(e) && exists|w: Seq<Double>| #[trigger]
                solution(ar, self.lhs(ar, nb), b, w) && e == self.weighted(
                    ar,
                    nb,
                    w,
                    b,
                    self.top(),
                )
        }
    }

    /// What prediction at a target gives.
    pub open spec fn predicted<F: Fn(Op, Double, Double) -> Double>(
        &self,
        ar: Arithmetic<F>,
        target: [Double; D],
        drift: Seq<Double>,
        r: Result<KrigingEstimate, GeostatError>,
    ) -> bool {
        exists|nb: Seq<usize>| #[trigger]
            self.is_neighborhood(ar, target, nb) && self.kriged(ar, target, drift, nb, r)
    }
}

/// A kriging predictor bound to a dataset and a covariance model.
pub struct Kriging<'a, const D: usize, G> {
    setting: Setting<'a, D, G>,
    tree: Option<KdTree<D>>,
    /// For a global neighborhood the system matrix is the same for every
    /// target: it is factored once.
    global_lu: Option<Lu>,
}

/// A first row of covariates that cannot be used.
pub open spec fn bad_drift(rows: Seq<Vec<Double>>, n_vars: usize, i: int) -> bool {
    &&& 0 <= i < rows.len()
    &&& !drift_row_ok(rows[i]@, n_vars)
    &&& forall|j: int| 0 <= j < i ==> drift_row_ok((#[trigger] rows[j])@, n_vars)
}

/// A row of covariates has one finite value per variable.
pub open spec fn drift_row_ok(row: Seq<Double>, n_vars: usize) -> bool {
    row.len() == n_vars && crate::data::finite_values(row)
}

/// All rows of covariates can be used.
pub open spec fn drift_ok(rows: Seq<Vec<Double>>, n_vars: usize) -> bool {
    forall|i: int| 0 <= i < rows.len() ==> drift_row_ok((#[trigger] rows[i])@, n_vars)
}

/// The error reports the first row of covariates that cannot be used.
pub open spec fn reports_drift(rows: Seq<Vec<Double>>, n_vars: usize, e: GeostatError) -> bool {
    exists|i: int| #[trigger] bad_drift(rows, n_vars, i) && if rows[i].len() != n_vars {
        mismatch(
            e,
            "drift row "@ + digits(i as nat) + " has "@ + digits(rows[i]@.len())
                + " values, expected "@ + digits(n_vars as nat),
        )
    } else {
        invalid(e, "non-finite drift value at data point "@ + digits(i as nat))
    }
}

/// Variances of measurement error are finite and not negative.
pub open spec fn errors_ok(errors: Seq<Double>) -> bool {
    forall|i: int|
        0 <= i < errors.len() ==> (#[trigger] errors[i]).finite() && num(0).at_most(errors[i])
}

/// Text that refuses simple kriging with an unbounded model.
pub open spec fn power_text() -> Seq<char> {
    "Power (unbounded) models have no covariance function, so simple kriging cannot use them; use Ordinary, Universal or ExternalDrift instead (kriged directly in semivariogram form, the classical IRF-0 generalization)"@
}

/// The configuration is in order for `n` data points.
pub open spec fn config_ok(config: KrigingConfig, has_power: bool, duplicates: bool, n: nat) -> bool {
    &&& config.method matches KrigingMethod::Universal { degree } ==> 1 <= degree <= 2
    &&& !(has_power && config.method is Simple)
    &&& crate::model::radius_ok(config.search_radius)
    &&& config.max_neighbors != Some(0usize)
    &&& !duplicates
    &&& config.max_per_octant != Some(0usize)
    &&& config.min_neighbors matches Some(k) ==> {
        &&& 0 < k <= n
        &&& config.max_neighbors matches Some(most) ==> k <= most
    }
}

/// Why it is not: the first check that fails.
pub open spec fn config_refused<const D: usize>(
    config: KrigingConfig,
    has_power: bool,
    places: Seq<[Double; D]>,
    e: GeostatError,
) -> bool {
    &&& !config_ok(config, has_power, has_duplicate(places), places.len())
    &&& if config.method is Universal && !(1 <= config.method->degree <= 2) {
        invalid(
            e,
            "universal kriging drift degree must be 1 or 2, got "@ + digits(
                config.method->degree as nat,
            ),
        )
    } else if has_power && config.method is Simple {
        invalid(e, power_text())
    } else if !crate::model::radius_ok(config.search_radius) {
        invalid_of(e, "search radius must be positive, got {}"@, seq![config.search_radius->0])
    } else if config.max_neighbors == Some(0usize) {
        invalid(e, "max_neighbors must be at least 1"@)
    } else if has_duplicate(places) {
        e matches GeostatError::DuplicatePoints(i, j) && first_duplicate(places, i as int, j as int)
    } else if config.max_per_octant == Some(0usize) {
        invalid(e, "max_per_octant must be at least 1"@)
    } else if config.min_neighbors == Some(0usize) {
        invalid(e, "min_neighbors must be at least 1"@)
    } else if config.min_neighbors->0 > places.len() {
        insufficient(
            e,
            "min_neighbors ("@ + digits(config.min_neighbors->0 as nat)
                + ") exceeds the number of data points ("@ + digits(places.len()) + ")"@,
        )
    } else {
        invalid(
            e,
            "min_neighbors ("@ + digits(config.min_neighbors->0 as nat)
                + ") exceeds max_neighbors ("@ + digits(config.max_neighbors->0 as nat) + ")"@,
        )
    }
}

/// Checks the configuration against the data and the model.
fn check_config<const D: usize>(config: &KrigingConfig, has_power: bool, data: &PointSet<D>) -> (r:
    Result<(), GeostatError>)
    ensures
        r is Ok <==> config_ok(
            *config,
            has_power,
            has_duplicate(data.places()),
            data.places().len(),
        ),
        r matches Err(e) ==> config_refused(*config, has_power, data.places(), e),
{
    if let KrigingMethod::Universal { degree } = config.method {
        if degree < 1 || degree > 2 {
            return Err(
                GeostatError::InvalidParameter(
                    Message::owned(
                        concat2(
                            "universal kriging drift degree must be 1 or 2, got ",
                            decimal(degree as usize).as_str(),
                        ),
                    ),
                ),
            );
        }
    }
    if has_power {
        if let KrigingMethod::Simple { .. } = config.method {
            return Err(
                invalid_parameter(
                    "Power (unbounded) models have no covariance function, so simple kriging cannot use them; use Ordinary, Universal or ExternalDrift instead (kriged directly in semivariogram form, the classical IRF-0 generalization)",
                ),
            );
        }
    }
    match crate::model::check_radius(config.search_radius) {
        Err(e) => {
            return Err(e);
        },
        Ok(_) => {},
    }
    if let Some(k) = config.max_neighbors {
        if k == 0 {
            return Err(invalid_parameter("max_neighbors must be at least 1"));
        }
    }
    if let Some((i, j)) = data.duplicate_pair() {
        return Err(GeostatError::DuplicatePoints(i, j));
    }
    if let Some(k) = config.max_per_octant {
        if k == 0 {
            return Err(invalid_parameter("max_per_octant must be at least 1"));
        }
    }
    if let Some(min_nb) = config.min_neighbors {
        if min_nb == 0 {
            return Err(invalid_parameter("min_neighbors must be at least 1"));
        }
        if min_nb > data.len() {
            return Err(
                GeostatError::InsufficientData(
                    Message::owned(
                        concat5(
                            "min_neighbors (",
                            decimal(min_nb).as_str(),
                            ") exceeds the number of data points (",
                            decimal(data.len()).as_str(),
                            ")",
                        ),
                    ),
                ),
            );
        }
        if let Some(max_nb) = config.max_neighbors {
            if min_nb > max_nb {
                return Err(
                    GeostatError::InvalidParameter(
                        Message::owned(
                            concat5(
                                "min_neighbors (",
                                decimal(min_nb).as_str(),
                                ") exceeds max_neighbors (",
                                decimal(max_nb).as_str(),
                                ")",
                            ),
                        ),
                    ),
                );
            }
        }
    }
    Ok(())
}

/// Column `k` of a table of covariates.
pub open spec fn drift_column(rows: Seq<Vec<Double>>, k: int) -> Seq<Double> {
    Seq::new(rows.len(), |i: int| rows[i]@[k])
}

/// Means and standard deviations of the covariates.
pub open spec fn drift_normalized<F: Fn(Op, Double, Double) -> Double>(
    ar: Arithmetic<F>,
    rows: Seq<Vec<Double>>,
    mean: Seq<Double>,
    scale: Seq<Double>,
) -> bool {
    &&& mean.len() == scale.len()
    &&& mean.len() == (if rows.len() > 0 {
        rows[0]@.len()
    } else {
        0
    })
    &&& forall|k: int|
        0 <= k < mean.len() ==> #[trigger] mean[k] == ar.average_of(drift_column(rows, k))
    &&& forall|k: int|
        0 <= k < scale.len() ==> #[trigger] scale[k] == ar.sqrt(
            ar.variance_of(drift_column(rows, k), mean[k]),
        ).max(num(LEAST))
}

/// Means and standard deviations of the covariates.
fn normalize_drift<F: Fn(Op, Double, Double) -> Double>(rows: &Vec<Vec<Double>>, ar: &Arithmetic<F>) -> (r: (
    Vec<Double>,
    Vec<Double>,
))
    requires
        ar.total(),
        rows.len() <= u32::MAX,
        forall|i: int| 0 <= i < rows.len() ==> (#[trigger] rows@[i]).len() == rows@[0].len(),
    ensures
        drift_normalized(*ar, rows@, r.0@, r.1@),
{
    let mut mean: Vec<Double> = Vec::new();
    let mut scale: Vec<Double> = Vec::new();
    if rows.len() == 0 {
        return (mean, scale);
    }
    let n_vars: usize = rows[0].len();
    for k in 0..n_vars
        invariant
            ar.total(),
            0 < rows.len() <= u32::MAX,
            n_vars == rows@[0].len(),
            forall|i: int| 0 <= i < rows.len() ==> (#[trigger] rows@[i]).len() == rows@[0].len(),
            mean.len() == k,
            scale.len() == k,
            forall|j: int|
                0 <= j < k ==> #[trigger] mean@[j] == ar.average_of(drift_column(rows@, j)),
            forall|j: int|
                0 <= j < k ==> #[trigger] scale@[j] == ar.sqrt(
                    ar.variance_of(drift_column(rows@, j), mean@[j]),
                ).max(num(LEAST)),
    {
        let mut column: Vec<Double> = Vec::new();
        for i in 0..rows.len()
            invariant
                k < n_vars,
                n_vars == rows@[0].len(),
                forall|j: int|
                    0 <= j < rows.len() ==> (#[trigger] rows@[j]).len() == rows@[0].len(),
                column@ =~= drift_column(rows@, k as int).take(i as int),
        {
            column.push(rows[i][k]);
        }
        assert(column@ =~= drift_column(rows@, k as int));
        let m: Double = ar.mean(&column);
        let v: Double = ar.variance(&column, m);
        mean.push(m);
        scale.push(ar.sqrt(v).max(num(LEAST)));
    }
    (mean, scale)
}

/// Center and half the widest extent of a box.
pub open spec fn drift_frame<F: Fn(Op, Double, Double) -> Double>(
    ar: Arithmetic<F>,
    min: Seq<Double>,
    max: Seq<Double>,
    center: Seq<Double>,
    scale: Double,
) -> bool {
    &&& center.len() == min.len()
    &&& forall|d: int|
        0 <= d < center.len() ==> #[trigger] center[d] == ar.times(
            num(HALF),
            ar.plus(min[d], max[d]),
        )
    &&& scale == ar.times(
        num(HALF),
        widest(extents_of(ar, min, max), min.len() as int),
    ).max(num(LEAST))
}

/// Center and half the widest extent of the points.
pub open spec fn frames<const D: usize, F: Fn(Op, Double, Double) -> Double>(
    ar: Arithmetic<F>,
    places: Seq<[Double; D]>,
    center: [Double; D],
    scale: Double,
) -> bool {
    exists|min: [Double; D], max: [Double; D]| #[trigger]
        is_bbox(places, min, max) && drift_frame(ar, min@, max@, center@, scale)
}

/// `min` and `max` are the corners of the box around the points.
pub open spec fn is_bbox<const D: usize>(
    places: Seq<[Double; D]>,
    min: [Double; D],
    max: [Double; D],
) -> bool {
    &&& forall|d: int| 0 <= d < D ==> lowest(#[trigger] min@[d], places, d)
    &&& forall|d: int| 0 <= d < D ==> highest(#[trigger] max@[d], places, d)
}

impl<'a, const D: usize, G: Fn([Double; D]) -> Double> Kriging<'a, D, G> {
    /// What the predictor is set up with.
    pub closed spec fn setting(&self) -> Setting<'a, D, G> {
        self.setting
    }

    /// The predictor is ready: the search tree holds the data points, and a
    /// factorization at hand is that of the global system.
    pub closed spec fn well_formed<F: Fn(Op, Double, Double) -> Double>(&self, ar: Arithmetic<F>) -> bool {
        &&& self.setting.well_formed()
        &&& self.setting.fits()
        &&& self.tree is None <==> self.setting.config.global()
        &&& self.tree matches Some(tree) ==> tree.well_formed() && tree.points()
            == self.setting.data.places()
        &&& self.global_lu matches Some(lu) ==> {
            let all = Seq::new(self.setting.data.places().len(), |i: int| i as usize);
            &&& self.tree is None
            &&& regular(ar, self.setting.lhs(ar, all))
            &&& lu.factors_of(ar, self.setting.lhs(ar, all))
        }
    }

    /// The predictor was built from these parts.
    pub open spec fn built<F: Fn(Op, Double, Double) -> Double>(
        &self,
        ar: Arithmetic<F>,
        data: &PointSet<D>,
        model: &Covariance<D, G>,
        config: KrigingConfig,
        drift_data: Seq<Vec<Double>>,
        measurement_error: Seq<Double>,
    ) -> bool {
        let s = self.setting();
        &&& self.well_formed(ar)
        &&& s.data == data
        &&& s.model == model
        &&& s.config == config
        &&& s.drift_data@ == drift_data
        &&& s.measurement_error@ == measurement_error
        &&& drift_normalized(ar, drift_data, s.drift_mean@, s.drift_scale@)
        &&& frames(ar, data.places(), s.center, s.scale)
    }

    /// The data and the model can be used, and the largest system fits in
    /// memory.
    pub open spec fn usable<F: Fn(Op, Double, Double) -> Double>(
        ar: Arithmetic<F>,
        data: &PointSet<D>,
        model: &Covariance<D, G>,
        method: KrigingMethod,
    ) -> bool {
        let dim = data.places().len() + method.terms(D as nat);
        &&& 0 < D
        &&& ar.ieee()
        &&& data.well_formed()
        &&& 0 < data.places().len() <= u32::MAX
        &&& model.total()
        &&& 1 + D + D * (D + 1) <= usize::MAX
        &&& dim <= usize::MAX
        &&& holdable(dim, dim)
    }

    /// Builds a predictor for simple/ordinary/universal kriging.
    pub fn new<F: Fn(Op, Double, Double) -> Double>(
        data: &'a PointSet<D>,
        model: &'a Covariance<D, G>,
        config: KrigingConfig,
        ar: &Arithmetic<F>,
    ) -> (r: Result<Self, GeostatError>)
        requires
            Self::usable(*ar, data, model, config.method),
        ensures
            match r {
                Ok(k) => {
                    &&& !(config.method is ExternalDrift)
                    &&& config_ok(
                        config,
                        model.traits.has_power,
                        has_duplicate(data.places()),
                        data.places().len(),
                    )
                    &&& k.built(*ar, data, model, config, Seq::empty(), Seq::empty())
                },
                Err(e) => if config.method is ExternalDrift {
                    invalid(e, "external drift kriging requires Kriging::with_external_drift"@)
                } else {
                    config_refused(config, model.traits.has_power, data.places(), e)
                },
            },
    {
        if let KrigingMethod::ExternalDrift { .. } = config.method {
            return Err(
                invalid_parameter("external drift kriging requires Kriging::with_external_drift"),
            );
        }
        Kriging::build(data, model, config, Vec::new(), Vec::new(), ar)
    }

    /// Builds a predictor for data observed with measurement error: `errors[i]`
    /// is the error variance of datum `i`, added to the data-data diagonal
    /// only. Kriging then predicts the underlying signal.
    pub fn with_measurement_error<F: Fn(Op, Double, Double) -> Double>(
        data: &'a PointSet<D>,
        model: &'a Covariance<D, G>,
        config: KrigingConfig,
        errors: Vec<Double>,
        ar: &Arithmetic<F>,
    ) -> (r: Result<Self, GeostatError>)
        requires
            Self::usable(*ar, data, model, config.method),
        ensures
            match r {
                Ok(k) => {
                    &&& !(config.method is ExternalDrift)
                    &&& errors.len() == data.places().len()
                    &&& errors_ok(errors@)
                    &&& config_ok(
                        config,
                        model.traits.has_power,
                        has_duplicate(data.places()),
                        data.places().len(),
                    )
                    &&& k.built(*ar, data, model, config, Seq::empty(), errors@)
                },
                Err(e) => if config.method is ExternalDrift {
                    invalid(e, "measurement error with external drift is not supported yet"@)
                } else if errors.len() != data.places().len() {
                    mismatch(
                        e,
                        digits(errors@.len()) + " error variances vs "@ + digits(
                            data.places().len(),
                        ) + " data points"@,
                    )
                } else if !errors_ok(errors@) {
                    invalid(e, "measurement-error variances must be finite and non-negative"@)
                } else {
                    config_refused(config, model.traits.has_power, data.places(), e)
                },
            },
    {
        if let KrigingMethod::ExternalDrift { .. } = config.method {
            return Err(
                invalid_parameter("measurement error with external drift is not supported yet"),
            );
        }
        if errors.len() != data.len() {
            return Err(
                mismatched(
                    counts_text(errors.len(), " error variances vs ", data.len(), " data points"),
                ),
            );
        }
        for i in 0..errors.len()
            invariant
                !(config.method is ExternalDrift),
                errors.len() == data.places().len(),
                forall|j: int|
                    0 <= j < i ==> (#[trigger] errors@[j]).finite() && num(0).at_most(errors@[j]),
        {
            if !errors[i].is_finite() || !num(0).le(errors[i]) {
                return Err(
                    invalid_parameter(
                        "measurement-error variances must be finite and non-negative",
                    ),
                );
            }
        }
        Kriging::build(data, model, config, Vec::new(), errors, ar)
    }

    /// Builds an external-drift kriging predictor. `drift_data[i]` holds the
    /// covariate values at data point `i`.
    pub fn with_external_drift<F: Fn(Op, Double, Double) -> Double>(
        data: &'a PointSet<D>,
        model: &'a Covariance<D, G>,
        config: KrigingConfig,
        drift_data: Vec<Vec<Double>>,
        ar: &Arithmetic<F>,
    ) -> (r: Result<Self, GeostatError>)
        requires
            Self::usable(*ar, data, model, config.method),
        ensures
            match r {
                Ok(k) => {
                    &&& config.method is ExternalDrift
                    &&& config.method->n_vars > 0
                    &&& drift_data.len() == data.places().len()
                    &&& drift_ok(drift_data@, config.method->n_vars)
                    &&& config_ok(
                        config,
                        model.traits.has_power,
                        has_duplicate(data.places()),
                        data.places().len(),
                    )
                    &&& k.built(*ar, data, model, config, drift_data@, Seq::empty())
                },
                Err(e) => if !(config.method is ExternalDrift) {
                    invalid(e, "with_external_drift requires KrigingMethod::ExternalDrift"@)
                } else if config.method->n_vars == 0 {
                    invalid(e, "external drift requires at least one covariate"@)
                } else if drift_data.len() != data.places().len() {
                    mismatch(
                        e,
                        digits(drift_data@.len()) + " drift rows vs "@ + digits(
                            data.places().len(),
                        ) + " data points"@,
                    )
                } else if !drift_ok(drift_data@, config.method->n_vars) {
                    reports_drift(drift_data@, config.method->n_vars, e)
                } else {
                    config_refused(config, model.traits.has_power, data.places(), e)
                },
            },
    {
        let n_vars: usize = match config.method {
            KrigingMethod::ExternalDrift { n_vars } => n_vars,
            _ => {
                return Err(
                    invalid_parameter("with_external_drift requires KrigingMethod::ExternalDrift"),
                );
            },
        };
        if n_vars == 0 {
            return Err(invalid_parameter("external drift requires at least one covariate"));
        }
        if drift_data.len() != data.len() {
            return Err(
                mismatched(
                    counts_text(drift_data.len(), " drift rows vs ", data.len(), " data points"),
                ),
            );
        }
        for i in 0..drift_data.len()
            invariant
                config.method is ExternalDrift,
                n_vars == config.method->n_vars,
                n_vars > 0,
                drift_data.len() == data.places().len(),
                forall|j: int|
                    0 <= j < i ==> drift_row_ok((#[trigger] drift_data@[j])@, n_vars),
        {
            if drift_data[i].len() != n_vars {
                assert(bad_drift(drift_data@, n_vars, i as int));
                return Err(
                    mismatched(
                        concat3(
                            concat4(
                                "drift row ",
                                decimal(i).as_str(),
                                " has ",
                                decimal(drift_data[i].len()).as_str(),
                            ).as_str(),
                            " values, expected ",
                            decimal(n_vars).as_str(),
                        ),
                    ),
                );
            }
            if !crate::data::all_values_finite(&drift_data[i]) {
                assert(bad_drift(drift_data@, n_vars, i as int));
                return Err(
                    GeostatError::InvalidParameter(
                        Message::owned(
                            concat2("non-finite drift value at data point ", decimal(i).as_str()),
                        ),
                    ),
                );
            }
        }
        Kriging::build(data, model, config, drift_data, Vec::new(), ar)
    }

    fn build<F: Fn(Op, Double, Double) -> Double>(
        data: &'a PointSet<D>,
        model: &'a Covariance<D, G>,
        config: KrigingConfig,
        drift_data: Vec<Vec<Double>>,
        measurement_error: Vec<Double>,
        ar: &Arithmetic<F>,
    ) -> (r: Result<Self, GeostatError>)
        requires
            Self::usable(*ar, data, model, config.method),
            drift_data.len() <= u32::MAX,
            forall|i: int|
                0 <= i < drift_data.len() ==> (#[trigger] drift_data@[i]).len()
                    == drift_data@[0].len(),
            config.method matches KrigingMethod::ExternalDrift { n_vars } ==> drift_data.len()
                == data.places().len() && drift_data@[0].len() == n_vars,
        ensures
            match r {
                Ok(k) => {
                    &&& config_ok(
                        config,
                        model.traits.has_power,
                        has_duplicate(data.places()),
                        data.places().len(),
                    )
                    &&& k.built(*ar, data, model, config, drift_data@, measurement_error@)
                },
                Err(e) => config_refused(config, model.traits.has_power, data.places(), e),
            },
    {
        match check_config(&config, model.traits.has_power, data) {
            Err(e) => {
                return Err(e);
            },
            Ok(_) => {},
        }
        let (min, max): ([Double; D], [Double; D]) = data.bbox();
        let mut center: [Double; D] = min;
        let mut wide: Double = Double::zero();
        for d in 0..D
            invariant
                ar.total(),
                forall|i: int|
                    0 <= i < d ==> #[trigger] center@[i] == ar.times(
                        num(HALF),
                        ar.plus(min@[i], max@[i]),
                    ),
                wide == widest(extents_of(*ar, min@, max@), d as int),
        {
            center[d] = ar.times(num(HALF), ar.plus(min[d], max[d]));
            wide = wide.max(ar.minus(max[d], min[d]));
        }
        let scale: Double = ar.times(num(HALF), wide).max(num(LEAST));
        assert(is_bbox(data.places(), min, max));
        assert(drift_frame(*ar, min@, max@, center@, scale));
        let (drift_mean, drift_scale): (Vec<Double>, Vec<Double>) = normalize_drift(
            &drift_data,
            ar,
        );
        let moving: bool = config.max_neighbors.is_some() || config.search_radius.is_some()
            || config.max_per_octant.is_some();
        let tree: Option<KdTree<D>> = if moving {
            Some(KdTree::build(copy_points(data.coords())))
        } else {
            None
        };
        let setting: Setting<'a, D, G> = Setting {
            data,
            model,
            config,
            center,
            scale,
            drift_data,
            drift_mean,
            drift_scale,
            measurement_error,
        };
        let mut kriging: Kriging<'a, D, G> = Kriging { setting, tree, global_lu: None };
        if !moving {
            let nb: Vec<usize> = count_up(data.len());
            let m: usize = config.method.n_drift(D);
            if data.len() >= m {
                let a: Matrix = kriging.setting.build_lhs(&nb, ar);
                let ghost rows = a.rows();
                if let Ok(lu) = lu_factor(a, ar) {
                    kriging.global_lu = Some(lu);
                }
            }
        }
        Ok(kriging)
    }
}

impl<'a, const D: usize, G: Fn([Double; D]) -> Double> Setting<'a, D, G> {
    proof fn lemma_basis_len<F: Fn(Op, Double, Double) -> Double>(
        &self,
        ar: Arithmetic<F>,
        p: Seq<Double>,
        drift: Seq<Double>,
    )
        requires
            self.well_formed(),
        ensures
            self.basis(ar, p, drift).len() == self.terms(),
    {
        if self.config.method is Universal && self.config.method->degree == 2 {
            lemma_quadratics_len(ar, self.normalized(ar, p), D as nat);
        }
    }

    /// Drift basis at a point with the given covariates.
    fn fill_basis<F: Fn(Op, Double, Double) -> Double>(
        &self,
        p: &[Double; D],
        drift: &Vec<Double>,
        ar: &Arithmetic<F>,
    ) -> (out: Vec<
        Double,
    >)
        requires
            self.well_formed(),
            ar.total(),
            self.config.method matches KrigingMethod::ExternalDrift { n_vars } ==> drift.len()
                == n_vars,
        ensures
            out@ == self.basis(*ar, p@, drift@),
            out.len() == self.terms(),
    {
        proof {
            self.lemma_basis_len(*ar, p@, drift@);
        }
        let mut out: Vec<Double> = Vec::new();
        match self.config.method {
            KrigingMethod::Simple { .. } => {},
            KrigingMethod::Ordinary => {
                out.push(num(ONE));
                assert(out@ =~= self.basis(*ar, p@, drift@));
            },
            KrigingMethod::Universal { degree } => {
                out.push(num(ONE));
                let ghost x = self.normalized(*ar, p@);
                let mut xn: Vec<Double> = Vec::new();
                for d in 0..D
                    invariant
                        ar.total(),
                        x == self.normalized(*ar, p@),
                        xn@ =~= x.take(d as int),
                        out@ =~= seq![num(ONE)] + x.take(d as int),
                {
                    let v: Double = ar.over(ar.minus(p[d], self.center[d]), self.scale);
                    xn.push(v);
                    out.push(v);
                }
                assert(x.take(D as int) =~= x);
                if degree == 2 {
                    let ghost linear = out@;
                    for a in 0..D
                        invariant
                            ar.total(),
                            x.len() == D,
                            xn@ == x,
                            out@ =~= linear + quadratics(*ar, x, a as nat),
                    {
                        let ghost before = out@;
                        for b in a..D
                            invariant
                                ar.total(),
                                a < D,
                                x.len() == D,
                                xn@ == x,
                                out@ =~= before + Seq::new(
                                    (b - a) as nat,
                                    |t: int| ar.times(x[a as int], x[a + t]),
                                ),
                        {
                            out.push(ar.times(xn[a], xn[b]));
                        }
                        assert(out@ =~= linear + quadratics(*ar, x, (a + 1) as nat));
                    }
                }
                assert(out@ =~= self.basis(*ar, p@, drift@));
            },
            KrigingMethod::ExternalDrift { n_vars } => {
                out.push(num(ONE));
                for k in 0..n_vars
                    invariant
                        ar.total(),
                        drift.len() == n_vars,
                        self.drift_mean.len() == n_vars,
                        self.drift_scale.len() == n_vars,
                        out.len() == k + 1,
                        out@[0] == num(ONE),
                        forall|j: int|
                            0 <= j < k ==> #[trigger] out@[1 + j] == ar.over(
                                ar.minus(drift@[j], self.drift_mean@[j]),
                                self.drift_scale@[j],
                            ),
                {
                    out.push(
                        ar.over(ar.minus(drift[k], self.drift_mean[k]), self.drift_scale[k]),
                    );
                    assert forall|j: int| 0 <= j < k + 1 implies #[trigger] out@[1 + j] == ar.over(
                        ar.minus(drift@[j], self.drift_mean@[j]),
                        self.drift_scale@[j],
                    ) by {}
                }
                proof {
                    let want = self.basis(*ar, p@, drift@);
                    assert forall|j: int| 0 <= j < out.len() implies out@[j] == want[j] by {
                        if j > 0 {
                            assert(out@[1 + (j - 1)] == out@[j]);
                        }
                    }
                    assert(out@ =~= want);
                }
            },
        }
        out
    }

    /// Drift basis at data point `i`.
    fn point_basis<F: Fn(Op, Double, Double) -> Double>(
        &self,
        i: usize,
        ar: &Arithmetic<F>,
    ) -> (out: Vec<Double>)
        requires
            self.well_formed(),
            ar.total(),
            i < self.data.places().len(),
        ensures
            out@ == self.basis_at(*ar, i as int),
            out.len() == self.terms(),
    {
        let p: [Double; D] = self.data.coord(i);
        if i < self.drift_data.len() {
            self.fill_basis(&p, &self.drift_data[i], ar)
        } else {
            let none: Vec<Double> = Vec::new();
            assert(none@ =~= Seq::<Double>::empty());
            self.fill_basis(&p, &none, ar)
        }
    }

    /// Builds the (target-independent) kriging-system matrix for the
    /// conditioning points `nb`.
    fn build_lhs<F: Fn(Op, Double, Double) -> Double>(
        &self,
        nb: &Vec<usize>,
        ar: &Arithmetic<F>,
    ) -> (a: Matrix)
        requires
            self.well_formed(),
            self.fits(),
            ar.total(),
            nb.len() <= self.data.places().len(),
            forall|i: int| 0 <= i < nb.len() ==> (#[trigger] nb@[i]) < self.data.places().len(),
        ensures
            a.square(nb@.len() + self.terms()),
            a.rows() == self.lhs(*ar, nb@),
    {
        let m: usize = self.config.method.n_drift(D);
        let n: usize = nb.len();
        let dim: usize = n + m;
        let mut bases: Vec<Vec<Double>> = Vec::new();
        for i in 0..n
            invariant
                self.well_formed(),
                ar.total(),
                n == nb.len(),
                m == self.terms(),
                forall|j: int| 0 <= j < n ==> (#[trigger] nb@[j]) < self.data.places().len(),
                bases.len() == i,
                forall|j: int|
                    0 <= j < i ==> (#[trigger] bases@[j])@ == self.basis_at(*ar, nb@[j] as int)
                        && bases@[j].len() == m,
        {
            bases.push(self.point_basis(nb[i], ar));
        }
        let first: [Double; D] = self.data.coord(0);
        let diagonal: Double = self.model.system_entry(zero_vector(&first), ar);
        let mut rows: Vec<Vec<Double>> = Vec::new();
        for r in 0..dim
            invariant
                self.well_formed(),
                ar.total(),
                n == nb.len(),
                m == self.terms(),
                dim == n + m,
                forall|j: int| 0 <= j < n ==> (#[trigger] nb@[j]) < self.data.places().len(),
                bases.len() == n,
                forall|j: int|
                    0 <= j < n ==> (#[trigger] bases@[j])@ == self.basis_at(*ar, nb@[j] as int)
                        && bases@[j].len() == m,
                diagonal == self.model.entry(*ar, no_separation(D as nat)),
                rows.len() == r,
                forall|j: int| 0 <= j < r ==> (#[trigger] rows@[j])@ == self.lhs(*ar, nb@)[j],
        {
            let mut row: Vec<Double> = Vec::new();
            for c in 0..dim
                invariant
                    self.well_formed(),
                    ar.total(),
                    n == nb.len(),
                    m == self.terms(),
                    dim == n + m,
                    r < dim,
                    forall|j: int| 0 <= j < n ==> (#[trigger] nb@[j]) < self.data.places().len(),
                    bases.len() == n,
                    forall|j: int|
                        0 <= j < n ==> (#[trigger] bases@[j])@ == self.basis_at(
                            *ar,
                            nb@[j] as int,
                        ) && bases@[j].len() == m,
                    diagonal == self.model.entry(*ar, no_separation(D as nat)),
                    row.len() == c,
                    forall|j: int|
                        0 <= j < c ==> #[trigger] row@[j] == self.lhs_cell(
                            *ar,
                            nb@,
                            r as int,
                            j,
                        ),
            {
                let v: Double = if r < n && c < n {
                    if r == c {
                        let i: usize = nb[r];
                        let error: Double = if i < self.measurement_error.len() {
                            self.measurement_error[i]
                        } else {
                            Double::zero()
                        };
                        ar.plus(diagonal, error)
                    } else {
                        let (a, b): (usize, usize) = if r < c {
                            (nb[r], nb[c])
                        } else {
                            (nb[c], nb[r])
                        };
                        let p: [Double; D] = self.data.coord(a);
                        let q: [Double; D] = self.data.coord(b);
                        self.model.system_entry(ar.sep(&p, &q), ar)
                    }
                } else if r < n {
                    bases[r][c - n]
                } else if c < n {
                    bases[c][r - n]
                } else {
                    Double::zero()
                };
                row.push(v);
            }
            assert(row@ =~= self.lhs(*ar, nb@)[r as int]);
            rows.push(row);
        }
        proof {
            lemma_holdable(dim as nat, self.data.places().len() + self.terms());
        }
        let a: Matrix = Matrix::from_rows(&rows, dim);
        assert(a.rows() =~= self.lhs(*ar, nb@));
        a
    }

    /// Entries for the separations of the conditioning points from the target,
    /// then its drift basis.
    fn build_rhs<F: Fn(Op, Double, Double) -> Double>(
        &self,
        nb: &Vec<usize>,
        target: &[Double; D],
        drift: &Vec<Double>,
        ar: &Arithmetic<F>,
    ) -> (b: Vec<Double>)
        requires
            self.well_formed(),
            ar.total(),
            forall|i: int| 0 <= i < nb.len() ==> (#[trigger] nb@[i]) < self.data.places().len(),
            self.config.method matches KrigingMethod::ExternalDrift { n_vars } ==> drift.len()
                == n_vars,
        ensures
            b@ == self.rhs(*ar, nb@, target@, drift@),
    {
        let mut b: Vec<Double> = Vec::new();
        for i in 0..nb.len()
            invariant
                self.well_formed(),
                ar.total(),
                forall|j: int|
                    0 <= j < nb.len() ==> (#[trigger] nb@[j]) < self.data.places().len(),
                b.len() == i,
                forall|j: int|
                    0 <= j < i ==> #[trigger] b@[j] == self.model.entry(
                        *ar,
                        ar.separation(self.data.places()[nb@[j] as int]@, target@),
                    ),
        {
            let p: [Double; D] = self.data.coord(nb[i]);
            b.push(self.model.system_entry(ar.sep(&p, target), ar));
        }
        let mut f: Vec<Double> = self.fill_basis(target, drift, ar);
        let ghost head = b@;
        let ghost tail = f@;
        b.append(&mut f);
        assert(b@ =~= head + tail);
        assert(b@ =~= self.rhs(*ar, nb@, target@, drift@));
        b
    }

    /// The estimate that weights give.
    fn weigh<F: Fn(Op, Double, Double) -> Double>(
        &self,
        nb: &Vec<usize>,
        w: &Vec<Double>,
        b: &Vec<Double>,
        top: Option<Double>,
        ar: &Arithmetic<F>,
    ) -> (e: KrigingEstimate)
        requires
            self.well_formed(),
            ar.total(),
            w.len() == b.len(),
            nb.len() <= b.len(),
            !(self.config.method is Simple) ==> nb.len() < b.len(),
            forall|i: int| 0 <= i < nb.len() ==> (#[trigger] nb@[i]) < self.data.places().len(),
        ensures
            e == self.weighted(*ar, nb@, w@, b@, top),
    {
        let n: usize = nb.len();
        match self.config.method {
            KrigingMethod::Simple { mean } => {
                let mut centered: Vec<Double> = Vec::new();
                for i in 0..n
                    invariant
                        self.well_formed(),
                        ar.total(),
                        n == nb.len(),
                        forall|j: int|
                            0 <= j < nb.len() ==> (#[trigger] nb@[j]) < self.data.places().len(),
                        centered@ =~= self.centered_at(*ar, nb@, mean).take(i as int),
                {
                    centered.push(ar.minus(self.data.value(nb[i]), mean));
                }
                assert(centered@ =~= self.centered_at(*ar, nb@, mean));
                let reduction: Double = ar.dot(Double::zero(), w, b, n);
                let variance: Double = match top {
                    Some(c) => ar.minus(c, reduction),
                    None => reduction,
                };
                KrigingEstimate {
                    value: ar.dot(mean, w, &centered, n),
                    variance: variance.max(num(0)),
                    lagrange: None,
                }
            },
            _ => {
                let mut values: Vec<Double> = Vec::new();
                for i in 0..n
                    invariant
                        self.well_formed(),
                        n == nb.len(),
                        forall|j: int|
                            0 <= j < nb.len() ==> (#[trigger] nb@[j]) < self.data.places().len(),
                        values@ =~= self.values_at(nb@).take(i as int),
                {
                    values.push(self.data.value(nb[i]));
                }
                assert(values@ =~= self.values_at(nb@));
                let reduction: Double = ar.dot(num(MINUS_ZERO), w, b, b.len());
                let variance: Double = match top {
                    Some(c) => ar.minus(c, reduction),
                    None => reduction,
                };
                KrigingEstimate {
                    value: ar.dot(num(MINUS_ZERO), w, &values, n),
                    variance: variance.max(num(0)),
                    lagrange: Some(w[n]),
                }
            },
        }
    }
}

proof fn lemma_quadratics_len<F: Fn(Op, Double, Double) -> Double>(ar: Arithmetic<F>, x: Seq<Double>, n: nat)
    requires
        n <= x.len(),
    ensures
        quadratics(ar, x, n).len() == n * (2 * x.len() - n + 1) / 2,
        n == x.len() ==> quadratics(ar, x, n).len() == n * (n + 1) / 2,
    decreases n,
{
    if n > 0 {
        lemma_quadratics_len(ar, x, (n - 1) as nat);
        let l = x.len() as int;
        let m = n as int;
        assert(m * (2 * l - m + 1) == (m - 1) * (2 * l - (m - 1) + 1) + 2 * (l - (m - 1)))
            by (nonlinear_arith);
        assert(m == l ==> 2 * l - m + 1 == m + 1);
    }
}

/// A smaller system can be held in memory where a larger one can.
pub proof fn lemma_holdable(small: nat, large: nat)
    requires
        small <= large,
        holdable(large, large),
    ensures
        holdable(small, small),
{
    let s = reach(small);
    let l = reach(large);
    assert(s * s <= l * l) by (nonlinear_arith)
        requires
            s <= l,
    ;
}

impl<'a, const D: usize, G: Fn([Double; D]) -> Double> Kriging<'a, D, G> {
    /// Conditioning points of a target.
    fn neighbors<F: Fn(Op, Double, Double) -> Double>(
        &self,
        target: [Double; D],
        ar: &Arithmetic<F>,
    ) -> (nb: Vec<usize>)
        requires
            self.well_formed(*ar),
            ar.ieee(),
        ensures
            self.setting.is_neighborhood(*ar, target, nb@),
            nb.len() <= self.setting.data.places().len(),
            forall|i: int|
                0 <= i < nb.len() ==> (#[trigger] nb@[i]) < self.setting.data.places().len(),
    {
        let config: KrigingConfig = self.setting.config;
        let n: usize = self.setting.data.len();
        let ghost places = self.setting.data.places();
        let ghost d = spread(*ar, places, target);
        let ghost r2 = limit(ar.square_radius(config.search_radius));
        let tree: &KdTree<D> = match &self.tree {
            None => {
                return count_up(n);
            },
            Some(tree) => tree,
        };
        let per: usize = match config.max_per_octant {
            None => {
                let k: usize = match config.max_neighbors {
                    Some(k) => k,
                    None => n,
                };
                let nb: Vec<usize> = tree.nearest(target, k, config.search_radius, ar);
                proof {
                    lemma_found_fit(nb@, k as nat, d, n as nat, r2);
                }
                return nb;
            },
            Some(per) => per,
        };
        let all: Vec<usize> = tree.nearest(target, n, config.search_radius, ar);
        proof {
            lemma_found_fit(all@, n as nat, d, n as nat, r2);
        }
        let mut taken: Vec<usize> = Vec::new();
        for a in 0..all.len()
            invariant
                all.len() <= n,
                n == places.len(),
                places == self.setting.data.places(),
                forall|i: int| 0 <= i < all.len() ==> (#[trigger] all@[i]) < n,
                taken.len() <= a,
                taken@ == taken_by_sector(places, target, all@.take(a as int), per as nat),
                forall|i: int| 0 <= i < taken.len() ==> (#[trigger] taken@[i]) < n,
        {
            let i: usize = all[a];
            let c: [Double; D] = self.setting.data.coord(i);
            proof {
                let list = all@.take(a + 1);
                assert(list.drop_last() =~= all@.take(a as int));
                assert(list.last() == i);
            }
            let count: usize = self.setting.count_in_sector(&target, &taken, &c);
            if count < per {
                taken.push(i);
            }
        }
        assert(all@.take(all.len() as int) =~= all@);
        if let Some(k) = config.max_neighbors {
            if k < taken.len() {
                taken.truncate(k);
            }
        }
        assert(k_nearest_of(all@, n as nat, d, n as nat, r2));
        taken
    }

    /// Kriging estimate at a single target location (simple/ordinary/universal
    /// kriging; external drift needs [`Kriging::predict_with_drift`]).
    pub fn predict<F: Fn(Op, Double, Double) -> Double>(
        &self,
        target: [Double; D],
        ar: &Arithmetic<F>,
    ) -> (r: Result<
        KrigingEstimate,
        GeostatError,
    >)
        requires
            self.well_formed(*ar),
            ar.ieee(),
        ensures
            self.answers(*ar, target, r),
    {
        if let KrigingMethod::ExternalDrift { .. } = self.setting.config.method {
            return Err(invalid_parameter("external drift kriging requires predict_with_drift"));
        }
        let none: Vec<Double> = Vec::new();
        assert(none@ =~= Seq::<Double>::empty());
        self.predict_inner(target, &none, ar)
    }

    /// The predictor can be asked with this arithmetic.
    pub open spec fn ready<F: Fn(Op, Double, Double) -> Double>(&self, ar: &Arithmetic<F>) -> bool {
        self.well_formed(*ar) && ar.ieee()
    }

    /// What [`Kriging::predict`] gives.
    pub open spec fn answers<F: Fn(Op, Double, Double) -> Double>(
        &self,
        ar: Arithmetic<F>,
        target: [Double; D],
        r: Result<KrigingEstimate, GeostatError>,
    ) -> bool {
        if self.setting().config.method is ExternalDrift {
            r matches Err(e) && invalid(
                e,
                "external drift kriging requires predict_with_drift"@,
            )
        } else {
            self.setting().predicted(ar, target, Seq::empty(), r)
        }
    }

    /// What [`Kriging::predict_with_drift`] gives.
    pub open spec fn answers_with_drift<F: Fn(Op, Double, Double) -> Double>(
        &self,
        ar: Arithmetic<F>,
        target: [Double; D],
        drift: Seq<Double>,
        r: Result<KrigingEstimate, GeostatError>,
    ) -> bool {
        match self.setting().config.method {
            KrigingMethod::ExternalDrift { n_vars } => if drift.len() != n_vars {
                r matches Err(e) && mismatch(
                    e,
                    "target drift has "@ + digits(drift.len()) + " values, expected "@ + digits(
                        n_vars as nat,
                    ),
                )
            } else {
                self.setting().predicted(ar, target, drift, r)
            },
            _ => r matches Err(e) && invalid(
                e,
                "predict_with_drift requires KrigingMethod::ExternalDrift"@,
            ),
        }
    }

    /// External-drift kriging estimate: `target_drift` holds the covariate
    /// values at the target location.
    pub fn predict_with_drift<F: Fn(Op, Double, Double) -> Double>(
        &self,
        target: [Double; D],
        target_drift: &Vec<Double>,
        ar: &Arithmetic<F>,
    ) -> (r: Result<KrigingEstimate, GeostatError>)
        requires
            self.well_formed(*ar),
            ar.ieee(),
        ensures
            self.answers_with_drift(*ar, target, target_drift@, r),
    {
        match self.setting.config.method {
            KrigingMethod::ExternalDrift { n_vars } => {
                if target_drift.len() != n_vars {
                    return Err(
                        mismatched(
                            concat4(
                                "target drift has ",
                                decimal(target_drift.len()).as_str(),
                                " values, expected ",
                                decimal(n_vars).as_str(),
                            ),
                        ),
                    );
                }
                self.predict_inner(target, target_drift, ar)
            },
            _ => Err(invalid_parameter("predict_with_drift requires KrigingMethod::ExternalDrift")),
        }
    }

    fn predict_inner<F: Fn(Op, Double, Double) -> Double>(
        &self,
        target: [Double; D],
        drift: &Vec<Double>,
        ar: &Arithmetic<F>,
    ) -> (r:
        Result<KrigingEstimate, GeostatError>)
        requires
            self.well_formed(*ar),
            ar.ieee(),
            self.setting.config.method matches KrigingMethod::ExternalDrift { n_vars }
                ==> drift.len() == n_vars,
        ensures
            self.setting.predicted(*ar, target, drift@, r),
    {
        let nb: Vec<usize> = self.neighbors(target, ar);
        let ghost s = self.setting;
        let n: usize = nb.len();
        let least: usize = match self.setting.config.min_neighbors {
            Some(k) => k,
            None => 1,
        };
        if n < least {
            assert(s.kriged(*ar, target, drift@, nb@, Err(GeostatError::NoNeighbors)));
            return Err(GeostatError::NoNeighbors);
        }
        let m: usize = self.setting.config.method.n_drift(D);
        if n < m {
            let e: GeostatError = GeostatError::InsufficientData(
                Message::owned(counts_text(n, " neighbors cannot support ", m, " drift terms")),
            );
            assert(s.kriged(*ar, target, drift@, nb@, Err(e)));
            return Err(e);
        }
        let b: Vec<Double> = self.setting.build_rhs(&nb, &target, drift, ar);
        let b0: Vec<Double> = copy_values(&b);
        let ghost lhs = s.lhs(*ar, nb@);
        let w: Vec<Double> = match &self.global_lu {
            Some(lu) => {
                proof {
                    assert(nb@ =~= Seq::new(s.data.places().len(), |i: int| i as usize));
                    lemma_exchanges(*ar, *lu, lhs);
                }
                lu.solve(b, ar)
            },
            None => {
                match solve(self.setting.build_lhs(&nb, ar), b, ar) {
                    Ok(w) => w,
                    Err(e) => {
                        proof {
                            lemma_reported_is_singular(*ar, lhs, e);
                            assert(s.kriged(*ar, target, drift@, nb@, Err(e)));
                        }
                        return Err(e);
                    },
                }
            },
        };
        assert(solution(*ar, lhs, b0@, w@));
        let top: Option<Double> = if self.setting.model.traits.has_power {
            None
        } else {
            Some(self.setting.model.sill)
        };
        let e: KrigingEstimate = self.setting.weigh(&nb, &w, &b0, top, ar);
        assert(s.kriged(*ar, target, drift@, nb@, Ok(e)));
        Ok(e)
    }

    /// `e` is the estimate at a target, or NaN where prediction fails.
    pub open spec fn filled<F: Fn(Op, Double, Double) -> Double>(
        &self,
        ar: Arithmetic<F>,
        target: [Double; D],
        e: KrigingEstimate,
    ) -> bool {
        exists|r: Result<KrigingEstimate, GeostatError>| #[trigger]
            self.answers(ar, target, r) && e == or_nan(r)
    }

    /// `es` are the estimates at the targets, NaN where prediction fails.
    pub open spec fn fills<F: Fn(Op, Double, Double) -> Double>(
        &self,
        ar: Arithmetic<F>,
        targets: Seq<[Double; D]>,
        es: Seq<KrigingEstimate>,
    ) -> bool {
        &&& es.len() == targets.len()
        &&& forall|i: int| 0 <= i < es.len() ==> self.filled(ar, targets[i], #[trigger] es[i])
    }

    /// `e` is the estimate at a target with covariates, or NaN where prediction
    /// fails.
    pub open spec fn filled_with_drift<F: Fn(Op, Double, Double) -> Double>(
        &self,
        ar: Arithmetic<F>,
        target: [Double; D],
        drift: Seq<Double>,
        e: KrigingEstimate,
    ) -> bool {
        exists|r: Result<KrigingEstimate, GeostatError>| #[trigger]
            self.answers_with_drift(ar, target, drift, r) && e == or_nan(r)
    }
}

impl<'a, const D: usize, G: Fn([Double; D]) -> Double> Kriging<'a, D, G> {
    fn predict_or_nan<F: Fn(Op, Double, Double) -> Double>(
        &self,
        target: [Double; D],
        ar: &Arithmetic<F>,
    ) -> (e: KrigingEstimate)
        requires
            self.ready(ar),
        ensures
            self.filled(*ar, target, e),
    {
        let r: Result<KrigingEstimate, GeostatError> = self.predict(target, ar);
        assert(self.answers(*ar, target, r));
        fill_nan(r)
    }

    fn predict_with_drift_or_nan<F: Fn(Op, Double, Double) -> Double>(
        &self,
        target: [Double; D],
        drift: &Vec<Double>,
        ar: &Arithmetic<F>,
    ) -> (e: KrigingEstimate)
        requires
            self.ready(ar),
        ensures
            self.filled_with_drift(*ar, target, drift@, e),
    {
        let r: Result<KrigingEstimate, GeostatError> = self.predict_with_drift(target, drift, ar);
        assert(self.answers_with_drift(*ar, target, drift@, r));
        fill_nan(r)
    }
}

/// The estimate, or NaN where there is none.
pub fn fill_nan(r: Result<KrigingEstimate, GeostatError>) -> (e: KrigingEstimate)
    ensures
        e == or_nan(r),
{
    match r {
        Ok(e) => e,
        Err(_) => KrigingEstimate {
            value: Double::not_a_number(),
            variance: Double::not_a_number(),
            lagrange: None,
        },
    }
}

/// A copy of a list of values.
pub fn copy_values(v: &Vec<Double>) -> (out: Vec<Double>)
    ensures
        out@ == v@,
{
    let mut out: Vec<Double> = Vec::new();
    for i in 0..v.len()
        invariant
            out@ =~= v@.take(i as int),
    {
        out.push(v[i]);
    }
    assert(out@ =~= v@);
    out
}

impl<'a, const D: usize, G: Fn([Double; D]) -> Double> Setting<'a, D, G> {
    /// How many of the points lie in the sector of `c`.
    fn count_in_sector(&self, target: &[Double; D], points: &Vec<usize>, c: &[Double; D]) -> (n: usize)
        requires
            forall|i: int| 0 <= i < points.len() ==> (#[trigger] points@[i]) < self.data.places().len(),
        ensures
            n == in_sector(self.data.places(), *target, points@, sector(*c, *target)),
    {
        let mut n: usize = 0;
        for a in 0..points.len()
            invariant
                forall|i: int|
                    0 <= i < points.len() ==> (#[trigger] points@[i]) < self.data.places().len(),
                n <= a,
                n == in_sector(
                    self.data.places(),
                    *target,
                    points@.take(a as int),
                    sector(*c, *target),
                ),
        {
            let p: [Double; D] = self.data.coord(points[a]);
            let mut same: bool = true;
            for d in 0..D
                invariant
                    same == (forall|e: int|
                        0 <= e < d ==> #[trigger] target@[e].at_most(p@[e]) == target@[e].at_most(
                            c@[e],
                        )),
            {
                same = same && (target[d].le(p[d]) == target[d].le(c[d]));
            }
            proof {
                assert(points@.take(a + 1).drop_last() =~= points@.take(a as int));
                if same {
                    assert(sector(p, *target) =~= sector(*c, *target));
                } else {
                    let e = choose|e: int|
                        0 <= e < D && #[trigger] target@[e].at_most(p@[e]) != target@[e].at_most(
                            c@[e],
                        );
                    assert(sector(p, *target)[e] != sector(*c, *target)[e]);
                }
            }
            if same {
                n = n + 1;
            }
        }
        assert(points@.take(points.len() as int) =~= points@);
        n
    }
}

impl<'a, const D: usize, G: Fn([Double; D]) -> Double + Sync> Kriging<'a, D, G> {
    /// Kriging estimates at many targets, in parallel. Targets whose system
    /// fails (e.g. no neighbors) yield NaN estimates.
    pub fn predict_many<F: Fn(Op, Double, Double) -> Double + Sync>(
        &self,
        targets: &Vec<[Double; D]>,
        ar: &Arithmetic<F>,
    ) -> (out: Vec<KrigingEstimate>)
        requires
            self.well_formed(*ar),
            ar.ieee(),
        ensures
            self.fills(*ar, targets@, out@),
    {
        let one = |i: usize| -> (e: KrigingEstimate)
            requires
                i < targets.len(),
                self.ready(ar),
            ensures
                self.filled(*ar, targets@[i as int], e),
            {
                self.predict_or_nan(targets[i], ar)
            };
        par_map(targets.len(), one)
    }

    /// External-drift estimates at many targets, in parallel. `drifts[i]` holds
    /// the covariates of `targets[i]`.
    pub fn predict_many_with_drift<F: Fn(Op, Double, Double) -> Double + Sync>(
        &self,
        targets: &Vec<[Double; D]>,
        drifts: &Vec<Vec<Double>>,
        ar: &Arithmetic<F>,
    ) -> (r: Result<Vec<KrigingEstimate>, GeostatError>)
        requires
            self.well_formed(*ar),
            ar.ieee(),
        ensures
            match r {
                Ok(out) => {
                    &&& targets.len() == drifts.len()
                    &&& out.len() == targets.len()
                    &&& forall|i: int|
                        0 <= i < out.len() ==> self.filled_with_drift(
                            *ar,
                            targets@[i],
                            drifts@[i]@,
                            #[trigger] out@[i],
                        )
                },
                Err(e) => targets.len() != drifts.len() && mismatch(
                    e,
                    digits(targets@.len()) + " targets vs "@ + digits(drifts@.len())
                        + " drift rows"@,
                ),
            },
    {
        if targets.len() != drifts.len() {
            return Err(
                mismatched(counts_text(targets.len(), " targets vs ", drifts.len(), " drift rows")),
            );
        }
        let one = |i: usize| -> (e: KrigingEstimate)
            requires
                i < targets.len(),
                targets.len() == drifts.len(),
                self.ready(ar),
            ensures
                self.filled_with_drift(*ar, targets@[i as int], drifts@[i as int]@, e),
            {
                self.predict_with_drift_or_nan(targets[i], &drifts[i], ar)
            };
        Ok(par_map(targets.len(), one))
    }
}

/// Sum over the offsets `v < n` of the covariance of offsets `u` and `v`,
/// starting from `start`; `near` stands for that of an offset with itself.
pub open spec fn block_row<const D: usize, F: Fn(Op, Double, Double) -> Double, G: Fn([Double; D]) -> Double>(
    ar: Arithmetic<F>,
    model: Covariance<D, G>,
    offsets: Seq<[Double; D]>,
    near: Double,
    u: int,
    n: int,
    start: Double,
) -> Double
    decreases n,
{
    if n <= 0 {
        start
    } else {
        ar.plus(
            block_row(ar, model, offsets, near, u, n - 1, start),
            if n - 1 == u {
                near
            } else {
                model.between(ar, offsets[u]@, offsets[n - 1]@)
            },
        )
    }
}

/// Sum of the covariances of all pairs of offsets, for the first `n` offsets.
pub open spec fn block_sum<const D: usize, F: Fn(Op, Double, Double) -> Double, G: Fn([Double; D]) -> Double>(
    ar: Arithmetic<F>,
    model: Covariance<D, G>,
    offsets: Seq<[Double; D]>,
    near: Double,
    n: int,
) -> Double
    decreases n,
{
    if n <= 0 {
        num(0)
    } else {
        block_row(
            ar,
            model,
            offsets,
            near,
            n - 1,
            offsets.len() as int,
            block_sum(ar, model, offsets, near, n - 1),
        )
    }
}

/// Covariance within a block: the mean over all pairs of discretization points.
/// The nugget is left out for a point with itself.
pub open spec fn within_block<const D: usize, F: Fn(Op, Double, Double) -> Double, G: Fn([Double; D]) -> Double>(
    ar: Arithmetic<F>,
    model: Covariance<D, G>,
    offsets: Seq<[Double; D]>,
) -> Double {
    let nu = Double::count(offsets.len());
    ar.over(
        block_sum(
            ar,
            model,
            offsets,
            ar.minus(model.sill, model.nugget),
            offsets.len() as int,
        ),
        ar.times(nu, nu),
    )
}

/// Covariances of a point with the discretization points of a block.
pub open spec fn to_block<const D: usize, F: Fn(Op, Double, Double) -> Double, G: Fn([Double; D]) -> Double>(
    ar: Arithmetic<F>,
    model: Covariance<D, G>,
    p: Seq<Double>,
    center: Seq<Double>,
    offsets: Seq<[Double; D]>,
) -> Seq<Double> {
    Seq::new(
        offsets.len(),
        |u: int| model.remaining(ar, block_gap(ar, p, center, offsets[u]@)),
    )
}

/// Separation of a point from a discretization point.
pub open spec fn block_gap<F: Fn(Op, Double, Double) -> Double>(
    ar: Arithmetic<F>,
    p: Seq<Double>,
    center: Seq<Double>,
    offset: Seq<Double>,
) -> Seq<Double> {
    Seq::new(p.len(), |k: int| ar.minus(p[k], ar.plus(center[k], offset[k])))
}

/// Mean covariance of a point with a block.
pub open spec fn point_to_block<const D: usize, F: Fn(Op, Double, Double) -> Double, G: Fn([Double; D]) -> Double>(
    ar: Arithmetic<F>,
    model: Covariance<D, G>,
    p: Seq<Double>,
    center: Seq<Double>,
    offsets: Seq<[Double; D]>,
) -> Double {
    ar.average_of(to_block(ar, model, p, center, offsets))
}

impl<'a, const D: usize, G: Fn([Double; D]) -> Double> Setting<'a, D, G> {
    /// Entry of the block-kriging matrix.
    pub open spec fn block_cell<F: Fn(Op, Double, Double) -> Double>(
        &self,
        ar: Arithmetic<F>,
        nb: Seq<usize>,
        r: int,
        c: int,
    ) -> Double {
        let n = nb.len();
        if r < n && c < n {
            if r == c {
                ar.plus(self.model.sill, self.error_at(nb[r] as int))
            } else {
                self.model.remaining(ar, self.gap(ar, nb, r, c))
            }
        } else if r < n || c < n {
            num(ONE)
        } else {
            num(0)
        }
    }

    /// The block-kriging matrix.
    pub open spec fn block_lhs<F: Fn(Op, Double, Double) -> Double>(
        &self,
        ar: Arithmetic<F>,
        nb: Seq<usize>,
    ) -> Seq<Seq<Double>> {
        let dim = nb.len() + self.terms();
        Seq::new(dim, |r: int| Seq::new(dim, |c: int| self.block_cell(ar, nb, r, c)))
    }

    /// Right-hand side: point-to-block covariances, then the constraint.
    pub open spec fn block_rhs<F: Fn(Op, Double, Double) -> Double>(
        &self,
        ar: Arithmetic<F>,
        nb: Seq<usize>,
        center: Seq<Double>,
        offsets: Seq<[Double; D]>,
    ) -> Seq<Double> {
        Seq::new(
            nb.len() + self.terms(),
            |r: int|
                if r < nb.len() {
                    point_to_block(
                        ar,
                        *self.model,
                        self.data.places()[nb[r] as int]@,
                        center,
                        offsets,
                    )
                } else {
                    num(ONE)
                },
        )
    }

    /// What block kriging with these conditioning points gives.
    pub open spec fn block_kriged<F: Fn(Op, Double, Double) -> Double>(
        &self,
        ar: Arithmetic<F>,
        center: [Double; D],
        offsets: Seq<[Double; D]>,
        nb: Seq<usize>,
        r: Result<KrigingEstimate, GeostatError>,
    ) -> bool {
        let b = self.block_rhs(ar, nb, center@, offsets);
        if nb.len() < self.config.least() {
            r matches Err(e) && e == GeostatError::NoNeighbors
        } else if !regular(ar, self.block_lhs(ar, nb)) {
            r matches Err(e) && reports_pivot(ar, self.block_lhs(ar, nb), e)
        } else {
            r matches Ok(e) && exists|w: Seq<Double>| #[trigger]
                solution(ar, self.block_lhs(ar, nb), b, w) && e == self.weighted(
                    ar,
                    nb,
                    w,
                    b,
                    Some(within_block(ar, *self.model, offsets)),
                )
        }
    }

    /// What block prediction gives.
    pub open spec fn block_predicted<F: Fn(Op, Double, Double) -> Double>(
        &self,
        ar: Arithmetic<F>,
        center: [Double; D],
        offsets: Seq<[Double; D]>,
        r: Result<KrigingEstimate, GeostatError>,
    ) -> bool {
        if !(self.config.method is Simple || self.config.method is Ordinary) {
            r matches Err(e) && invalid(
                e,
                "block kriging supports simple and ordinary kriging only"@,
            )
        } else if self.model.traits.has_power {
            r matches Err(e) && invalid(e, block_power_text())
        } else if offsets.len() == 0 {
            r matches Err(e) && invalid(e, "block discretization needs at least one point"@)
        } else {
            exists|nb: Seq<usize>| #[trigger]
                self.is_neighborhood(ar, center, nb) && self.block_kriged(
                    ar,
                    center,
                    offsets,
                    nb,
                    r,
                )
        }
    }

    fn build_block_lhs<F: Fn(Op, Double, Double) -> Double>(
        &self,
        nb: &Vec<usize>,
        ar: &Arithmetic<F>,
    ) -> (a: Matrix)
        requires
            self.well_formed(),
            self.fits(),
            ar.total(),
            nb.len() <= self.data.places().len(),
            forall|i: int| 0 <= i < nb.len() ==> (#[trigger] nb@[i]) < self.data.places().len(),
        ensures
            a.square(nb@.len() + self.terms()),
            a.rows() == self.block_lhs(*ar, nb@),
    {
        let m: usize = self.config.method.n_drift(D);
        let n: usize = nb.len();
        let dim: usize = n + m;
        let mut rows: Vec<Vec<Double>> = Vec::new();
        for r in 0..dim
            invariant
                self.well_formed(),
                ar.total(),
                n == nb.len(),
                m == self.terms(),
                dim == n + m,
                forall|j: int| 0 <= j < n ==> (#[trigger] nb@[j]) < self.data.places().len(),
                rows.len() == r,
                forall|j: int| 0 <= j < r ==> (#[trigger] rows@[j])@ == self.block_lhs(*ar, nb@)[j],
        {
            let mut row: Vec<Double> = Vec::new();
            for c in 0..dim
                invariant
                    self.well_formed(),
                    ar.total(),
                    n == nb.len(),
                    m == self.terms(),
                    dim == n + m,
                    r < dim,
                    forall|j: int| 0 <= j < n ==> (#[trigger] nb@[j]) < self.data.places().len(),
                    row.len() == c,
                    forall|j: int|
                        0 <= j < c ==> #[trigger] row@[j] == self.block_cell(
                            *ar,
                            nb@,
                            r as int,
                            j,
                        ),
            {
                let v: Double = if r < n && c < n {
                    if r == c {
                        let i: usize = nb[r];
                        let error: Double = if i < self.measurement_error.len() {
                            self.measurement_error[i]
                        } else {
                            Double::zero()
                        };
                        ar.plus(self.model.sill, error)
                    } else {
                        let (a, b): (usize, usize) = if r < c {
                            (nb[r], nb[c])
                        } else {
                            (nb[c], nb[r])
                        };
                        let p: [Double; D] = self.data.coord(a);
                        let q: [Double; D] = self.data.coord(b);
                        self.model.covariance_between(&p, &q, ar)
                    }
                } else if r < n || c < n {
                    num(ONE)
                } else {
                    Double::zero()
                };
                row.push(v);
            }
            assert(row@ =~= self.block_lhs(*ar, nb@)[r as int]);
            rows.push(row);
        }
        proof {
            lemma_holdable(dim as nat, self.data.places().len() + self.terms());
        }
        let a: Matrix = Matrix::from_rows(&rows, dim);
        assert(a.rows() =~= self.block_lhs(*ar, nb@));
        a
    }

    fn build_block_rhs<F: Fn(Op, Double, Double) -> Double>(
        &self,
        nb: &Vec<usize>,
        center: &[Double; D],
        offsets: &Vec<[Double; D]>,
        ar: &Arithmetic<F>,
    ) -> (b: Vec<Double>)
        requires
            self.well_formed(),
            self.fits(),
            ar.total(),
            offsets.len() < 2 * HIDDEN,
            nb.len() <= self.data.places().len(),
            forall|i: int| 0 <= i < nb.len() ==> (#[trigger] nb@[i]) < self.data.places().len(),
        ensures
            b@ == self.block_rhs(*ar, nb@, center@, offsets@),
    {
        let m: usize = self.config.method.n_drift(D);
        let n: usize = nb.len();
        let mut b: Vec<Double> = Vec::new();
        for r in 0..n + m
            invariant
                self.well_formed(),
                ar.total(),
                offsets.len() < 2 * HIDDEN,
                n == nb.len(),
                m == self.terms(),
                n + m <= usize::MAX,
                forall|j: int| 0 <= j < n ==> (#[trigger] nb@[j]) < self.data.places().len(),
                b.len() == r,
                forall|j: int|
                    0 <= j < r ==> #[trigger] b@[j] == self.block_rhs(
                        *ar,
                        nb@,
                        center@,
                        offsets@,
                    )[j],
        {
            if r < n {
                let p: [Double; D] = self.data.coord(nb[r]);
                let mut covs: Vec<Double> = Vec::new();
                for u in 0..offsets.len()
                    invariant
                        ar.total(),
                        self.model.total(),
                        covs@ =~= to_block(*ar, *self.model, p@, center@, offsets@).take(u as int),
                {
                    let off: [Double; D] = offsets[u];
                    let mut dh: [Double; D] = p;
                    for k in 0..D
                        invariant
                            ar.total(),
                            forall|i: int|
                                0 <= i < k ==> #[trigger] dh@[i] == ar.minus(
                                    p@[i],
                                    ar.plus(center@[i], off@[i]),
                                ),
                    {
                        dh[k] = ar.minus(p[k], ar.plus(center[k], off[k]));
                    }
                    assert(dh@ =~= block_gap(*ar, p@, center@, off@));
                    covs.push(self.model.remaining_dh(dh, ar));
                }
                assert(covs@ =~= to_block(*ar, *self.model, p@, center@, offsets@));
                b.push(ar.mean(&covs));
            } else {
                b.push(num(ONE));
            }
        }
        assert(b@ =~= self.block_rhs(*ar, nb@, center@, offsets@));
        b
    }
}

/// Covariance within a block.
fn block_covariance<const D: usize, F: Fn(Op, Double, Double) -> Double, G: Fn([Double; D]) -> Double>(
    model: &Covariance<D, G>,
    offsets: &Vec<[Double; D]>,
    ar: &Arithmetic<F>,
) -> (c: Double)
    requires
        ar.total(),
        model.total(),
        offsets.len() < 2 * HIDDEN,
    ensures
        c == within_block(*ar, *model, offsets@),
{
    let near: Double = ar.minus(model.sill, model.nugget);
    let mut sum: Double = Double::zero();
    for u in 0..offsets.len()
        invariant
            ar.total(),
            model.total(),
            sum == block_sum(*ar, *model, offsets@, near, u as int),
    {
        let ghost start = sum;
        for v in 0..offsets.len()
            invariant
                ar.total(),
                model.total(),
                u < offsets.len(),
                sum == block_row(*ar, *model, offsets@, near, u as int, v as int, start),
        {
            let c: Double = if u == v {
                near
            } else {
                model.covariance_between(&offsets[u], &offsets[v], ar)
            };
            sum = ar.plus(sum, c);
        }
    }
    let nu: Double = Double::from_count(offsets.len());
    ar.over(sum, ar.times(nu, nu))
}

/// Text that refuses block kriging with an unbounded model.
pub open spec fn block_power_text() -> Seq<char> {
    "block kriging with a Power model is not supported yet (needs a block-averaged semivariogram gamma-bar(B,B), not implemented) -- use point kriging instead"@
}

impl<'a, const D: usize, G: Fn([Double; D]) -> Double> Kriging<'a, D, G> {
    /// Block kriging estimate: predicts the average of a block centered at
    /// `center`, discretized at `center + offsets[u]`. Supported for simple and
    /// ordinary kriging.
    pub fn predict_block<F: Fn(Op, Double, Double) -> Double>(
        &self,
        center: [Double; D],
        offsets: &Vec<[Double; D]>,
        ar: &Arithmetic<F>,
    ) -> (r: Result<KrigingEstimate, GeostatError>)
        requires
            self.ready(ar),
            offsets.len() < 2 * HIDDEN,
        ensures
            self.setting().block_predicted(*ar, center, offsets@, r),
    {
        let allowed: bool = match self.setting.config.method {
            KrigingMethod::Simple { .. } => true,
            KrigingMethod::Ordinary => true,
            _ => false,
        };
        if !allowed {
            return Err(
                invalid_parameter("block kriging supports simple and ordinary kriging only"),
            );
        }
        if self.setting.model.traits.has_power {
            return Err(
                invalid_parameter(
                    "block kriging with a Power model is not supported yet (needs a block-averaged semivariogram gamma-bar(B,B), not implemented) -- use point kriging instead",
                ),
            );
        }
        if offsets.len() == 0 {
            return Err(invalid_parameter("block discretization needs at least one point"));
        }
        let nb: Vec<usize> = self.neighbors(center, ar);
        let ghost s = self.setting;
        let least: usize = match self.setting.config.min_neighbors {
            Some(k) => k,
            None => 1,
        };
        if nb.len() < least {
            assert(s.block_kriged(*ar, center, offsets@, nb@, Err(GeostatError::NoNeighbors)));
            return Err(GeostatError::NoNeighbors);
        }
        let a: Matrix = self.setting.build_block_lhs(&nb, ar);
        let b: Vec<Double> = self.setting.build_block_rhs(&nb, &center, offsets, ar);
        let cbb: Double = block_covariance(self.setting.model, offsets, ar);
        let b0: Vec<Double> = copy_values(&b);
        let ghost lhs = s.block_lhs(*ar, nb@);
        match solve(a, b, ar) {
            Err(e) => {
                proof {
                    lemma_reported_is_singular(*ar, lhs, e);
                    assert(s.block_kriged(*ar, center, offsets@, nb@, Err(e)));
                }
                Err(e)
            },
            Ok(w) => {
                assert(solution(*ar, lhs, b0@, w@));
                let e: KrigingEstimate = self.setting.weigh(&nb, &w, &b0, Some(cbb), ar);
                assert(s.block_kriged(*ar, center, offsets@, nb@, Ok(e)));
                Ok(e)
            },
        }
    }

    /// `e` is the block estimate, or NaN where prediction fails.
    pub open spec fn block_filled<F: Fn(Op, Double, Double) -> Double>(
        &self,
        ar: Arithmetic<F>,
        center: [Double; D],
        offsets: Seq<[Double; D]>,
        e: KrigingEstimate,
    ) -> bool {
        exists|r: Result<KrigingEstimate, GeostatError>| #[trigger]
            self.setting().block_predicted(ar, center, offsets, r) && e == or_nan(r)
    }

    fn predict_block_or_nan<F: Fn(Op, Double, Double) -> Double>(
        &self,
        center: [Double; D],
        offsets: &Vec<[Double; D]>,
        ar: &Arithmetic<F>,
    ) -> (e: KrigingEstimate)
        requires
            self.ready(ar),
            offsets.len() < 2 * HIDDEN,
        ensures
            self.block_filled(*ar, center, offsets@, e),
    {
        let r: Result<KrigingEstimate, GeostatError> = self.predict_block(center, offsets, ar);
        assert(self.setting().block_predicted(*ar, center, offsets@, r));
        fill_nan(r)
    }
}

/// Offset of discretization point `i` of `n` along a block side.
pub open spec fn block_step<F: Fn(Op, Double, Double) -> Double>(
    ar: Arithmetic<F>,
    size: Double,
    n: nat,
    i: nat,
) -> Double {
    ar.times(
        ar.minus(
            ar.over(ar.plus(Double::count(i), num(HALF)), Double::count(n)),
            num(HALF),
        ),
        size,
    )
}

/// `offsets` are the cell centers of an `n[0]` x `n[1]` grid over a block of
/// `size`, centered on the origin, the first axis fastest.
pub open spec fn are_block_offsets<F: Fn(Op, Double, Double) -> Double>(
    ar: Arithmetic<F>,
    size: Seq<Double>,
    n: Seq<usize>,
    offsets: Seq<[Double; 2]>,
) -> bool {
    &&& offsets.len() == n[0] * n[1]
    &&& forall|i: int|
        0 <= i < offsets.len() ==> (#[trigger] offsets[i])@ == seq![
            block_step(ar, size[0], n[0] as nat, (i % n[0] as int) as nat),
            block_step(ar, size[1], n[1] as nat, (i / n[0] as int) as nat),
        ]
}

fn step_along<F: Fn(Op, Double, Double) -> Double>(
    size: Double,
    n: usize,
    i: usize,
    ar: &Arithmetic<F>,
) -> (s: Double)
    requires
        ar.total(),
        n < 2 * HIDDEN,
        i < 2 * HIDDEN,
    ensures
        s == block_step(*ar, size, n as nat, i as nat),
{
    ar.times(
        ar.minus(
            ar.over(ar.plus(Double::from_count(i), num(HALF)), Double::from_count(n)),
            num(HALF),
        ),
        size,
    )
}

/// Regular block-discretization offsets: an `n[0]` x `n[1]` grid of cell
/// centers covering a block of `size`, centered on the origin.
pub fn block_offsets<F: Fn(Op, Double, Double) -> Double>(
    size: [Double; 2],
    n: [usize; 2],
    ar: &Arithmetic<F>,
) -> (r: Result<
    Vec<[Double; 2]>,
    GeostatError,
>)
    requires
        ar.total(),
        n@[0] < 2 * HIDDEN,
        n@[1] < 2 * HIDDEN,
        n@[0] * n@[1] <= usize::MAX,
    ensures
        match r {
            Ok(out) => {
                &&& n@[0] > 0 && n@[1] > 0
                &&& size@[0].is_positive() && size@[1].is_positive()
                &&& are_block_offsets(*ar, size@, n@, out@)
            },
            Err(e) => if n@[0] == 0 || n@[1] == 0 {
                invalid(e, "block discretization needs at least 1 point per axis"@)
            } else {
                &&& !size@[0].is_positive() || !size@[1].is_positive()
                &&& invalid_of(e, "block size must be positive, got [{:?}, {:?}]"@, size@)
            },
        },
{
    if n[0] == 0 || n[1] == 0 {
        return Err(invalid_parameter("block discretization needs at least 1 point per axis"));
    }
    if !size[0].is_positive() || !size[1].is_positive() {
        let mut doubles: Vec<Double> = Vec::new();
        doubles.push(size[0]);
        doubles.push(size[1]);
        assert(doubles@ =~= size@);
        return Err(
            GeostatError::InvalidParameter(
                Message::with("block size must be positive, got [{:?}, {:?}]".to_owned(), doubles),
            ),
        );
    }
    let nx: usize = n[0];
    let ny: usize = n[1];
    let mut out: Vec<[Double; 2]> = Vec::new();
    assert(0 * nx == 0) by (nonlinear_arith);
    for iy in 0..ny
        invariant
            ar.total(),
            nx == n@[0],
            ny == n@[1],
            0 < nx < 2 * HIDDEN,
            ny < 2 * HIDDEN,
            out@.len() == iy * nx,
            forall|i: int|
                0 <= i < out.len() ==> (#[trigger] out@[i])@ == seq![
                    block_step(*ar, size@[0], nx as nat, (i % nx as int) as nat),
                    block_step(*ar, size@[1], ny as nat, (i / nx as int) as nat),
                ],
    {
        for ix in 0..nx
            invariant
                ar.total(),
                nx == n@[0],
                ny == n@[1],
                0 < nx < 2 * HIDDEN,
                ny < 2 * HIDDEN,
                iy < ny,
                out@.len() == iy * nx + ix,
                forall|i: int|
                    0 <= i < out.len() ==> (#[trigger] out@[i])@ == seq![
                        block_step(*ar, size@[0], nx as nat, (i % nx as int) as nat),
                        block_step(*ar, size@[1], ny as nat, (i / nx as int) as nat),
                    ],
        {
            proof {
                vstd::arithmetic::div_mod::lemma_fundamental_div_mod_converse(
                    iy * nx + ix,
                    nx as int,
                    iy as int,
                    ix as int,
                );
            }
            let o: [Double; 2] = [
                step_along(size[0], nx, ix, ar),
                step_along(size[1], ny, iy, ar),
            ];
            assert(o@ =~= seq![
                block_step(*ar, size@[0], nx as nat, ix as nat),
                block_step(*ar, size@[1], ny as nat, iy as nat),
            ]);
            out.push(o);
        }
        assert((iy + 1) * nx == iy * nx + nx) by (nonlinear_arith);
    }
    assert(ny * nx == nx * ny) by (nonlinear_arith);
    Ok(out)
}

/// Values of estimates.
pub open spec fn values_of_estimates(es: Seq<KrigingEstimate>) -> Seq<Double> {
    Seq::new(es.len(), |i: int| es[i].value)
}

/// Variances of estimates.
pub open spec fn variances_of_estimates(es: Seq<KrigingEstimate>) -> Seq<Double> {
    Seq::new(es.len(), |i: int| es[i].variance)
}

/// Values and variances of estimates, as two lists.
pub fn unzip(es: &Vec<KrigingEstimate>) -> (r: (Vec<Double>, Vec<Double>))
    ensures
        r.0@ == values_of_estimates(es@),
        r.1@ == variances_of_estimates(es@),
{
    let mut values: Vec<Double> = Vec::new();
    let mut variances: Vec<Double> = Vec::new();
    for i in 0..es.len()
        invariant
            values@ =~= values_of_estimates(es@).take(i as int),
            variances@ =~= variances_of_estimates(es@).take(i as int),
    {
        values.push(es[i].value);
        variances.push(es[i].variance);
    }
    assert(values@ =~= values_of_estimates(es@));
    assert(variances@ =~= variances_of_estimates(es@));
    (values, variances)
}

impl<'a, G: Fn([Double; 2]) -> Double + Sync> Kriging<'a, 2, G> {
    /// `r` are the values and variances of estimates at the cell centers.
    pub open spec fn maps_grid<F: Fn(Op, Double, Double) -> Double>(
        &self,
        ar: Arithmetic<F>,
        grid: Grid2D,
        r: (Seq<Double>, Seq<Double>),
    ) -> bool {
        exists|centers: Seq<[Double; 2]>, es: Seq<KrigingEstimate>| #[trigger]
            self.fills(ar, centers, es) && grid.are_centers(ar, centers) && r == (
                values_of_estimates(es),
                variances_of_estimates(es),
            )
    }

    /// Kriging over all cell centers of a grid. Returns the values and the
    /// variances in grid storage order.
    pub fn predict_grid<F: Fn(Op, Double, Double) -> Double + Sync>(
        &self,
        grid: &Grid2D,
        ar: &Arithmetic<F>,
    ) -> (r: (Vec<Double>, Vec<Double>))
        requires
            self.ready(ar),
            grid.listable(),
        ensures
            self.maps_grid(*ar, *grid, (r.0@, r.1@)),
    {
        let centers: Vec<[Double; 2]> = grid.centers(ar);
        let es: Vec<KrigingEstimate> = self.predict_many(&centers, ar);
        assert(self.fills(*ar, centers@, es@));
        unzip(&es)
    }

    /// `es` are the block estimates at the centers, NaN where prediction fails.
    pub open spec fn block_estimates_all<F: Fn(Op, Double, Double) -> Double>(
        &self,
        ar: Arithmetic<F>,
        centers: Seq<[Double; 2]>,
        offsets: Seq<[Double; 2]>,
        es: Seq<KrigingEstimate>,
    ) -> bool {
        &&& es.len() == centers.len()
        &&& forall|i: int|
            0 <= i < es.len() ==> self.block_filled(ar, centers[i], offsets, #[trigger] es[i])
    }

    /// `r` are the values and variances of block estimates over the cells.
    pub open spec fn maps_blocks<F: Fn(Op, Double, Double) -> Double>(
        &self,
        ar: Arithmetic<F>,
        grid: Grid2D,
        size: Seq<Double>,
        n: Seq<usize>,
        r: (Seq<Double>, Seq<Double>),
    ) -> bool {
        exists|
            centers: Seq<[Double; 2]>,
            offsets: Seq<[Double; 2]>,
            es: Seq<KrigingEstimate>,
        | #[trigger]
            self.block_estimates_all(ar, centers, offsets, es) && grid.are_centers(ar, centers)
                && are_block_offsets(ar, size, n, offsets) && r == (
                values_of_estimates(es),
                variances_of_estimates(es),
            )
    }

    /// Block kriging over all grid cells, with blocks of `block_size`
    /// discretized as a regular `discr[0]` x `discr[1]` point grid.
    pub fn predict_block_grid<F: Fn(Op, Double, Double) -> Double + Sync>(
        &self,
        grid: &Grid2D,
        block_size: [Double; 2],
        discr: [usize; 2],
        ar: &Arithmetic<F>,
    ) -> (r: Result<(Vec<Double>, Vec<Double>), GeostatError>)
        requires
            self.ready(ar),
            grid.listable(),
            discr@[0] < 2 * HIDDEN,
            discr@[1] < 2 * HIDDEN,
            discr@[0] * discr@[1] < 2 * HIDDEN,
            discr@[0] * discr@[1] <= usize::MAX,
        ensures
            match r {
                Ok(out) => {
                    &&& discr@[0] > 0 && discr@[1] > 0
                    &&& block_size@[0].is_positive() && block_size@[1].is_positive()
                    &&& self.maps_blocks(*ar, *grid, block_size@, discr@, (out.0@, out.1@))
                },
                Err(e) => if discr@[0] == 0 || discr@[1] == 0 {
                    invalid(e, "block discretization needs at least 1 point per axis"@)
                } else {
                    &&& !block_size@[0].is_positive() || !block_size@[1].is_positive()
                    &&& invalid_of(e, "block size must be positive, got [{:?}, {:?}]"@, block_size@)
                },
            },
    {
        let offsets: Vec<[Double; 2]> = match block_offsets(block_size, discr, ar) {
            Ok(o) => o,
            Err(e) => {
                return Err(e);
            },
        };
        let centers: Vec<[Double; 2]> = grid.centers(ar);
        let cs: &Vec<[Double; 2]> = &centers;
        let os: &Vec<[Double; 2]> = &offsets;
        let one = |i: usize| -> (e: KrigingEstimate)
            requires
                i < cs.len(),
                os.len() < 2 * HIDDEN,
                self.ready(ar),
            ensures
                self.block_filled(*ar, cs@[i as int], os@, e),
            { self.predict_block_or_nan(cs[i], os, ar) };
        let es: Vec<KrigingEstimate> = par_map(centers.len(), one);
        assert(self.block_estimates_all(*ar, centers@, offsets@, es@));
        Ok(unzip(&es))
    }
}

impl<'a, const D: usize, G: Fn([Double; D]) -> Double> Setting<'a, D, G> {
    /// The kriging matrix is symmetric.
    pub proof fn system_is_symmetric<F: Fn(Op, Double, Double) -> Double>(
        &self,
        ar: Arithmetic<F>,
        nb: Seq<usize>,
        r: int,
        c: int,
    )
        requires
            0 <= r < nb.len() + self.terms(),
            0 <= c < nb.len() + self.terms(),
        ensures
            self.lhs(ar, nb)[r][c] == self.lhs(ar, nb)[c][r],
    {
    }

    /// A kriging variance is never negative, and there is a Lagrange multiplier unless
    /// kriging is simple.
    pub proof fn variance_is_not_negative<F: Fn(Op, Double, Double) -> Double>(
        &self,
        ar: Arithmetic<F>,
        target: [Double; D],
        drift: Seq<Double>,
        e: KrigingEstimate,
    )
        requires
            self.predicted(ar, target, drift, Ok(e)),
        ensures
            num(0).at_most(e.variance),
            e.lagrange is None <==> self.config.method is Simple,
    {
    }

    /// A block-kriging variance is never negative.
    pub proof fn block_variance_is_not_negative<F: Fn(Op, Double, Double) -> Double>(
        &self,
        ar: Arithmetic<F>,
        center: [Double; D],
        offsets: Seq<[Double; D]>,
        e: KrigingEstimate,
    )
        requires
            self.block_predicted(ar, center, offsets, Ok(e)),
        ensures
            num(0).at_most(e.variance),
    {
    }

    /// Measurement errors with zero variance change nothing: the system is that without
    /// measurement errors.
    pub proof fn zero_errors_change_nothing<F: Fn(Op, Double, Double) -> Double>(
        exact: Setting<'a, D, G>,
        noisy: Setting<'a, D, G>,
        ar: Arithmetic<F>,
        nb: Seq<usize>,
    )
        requires
            exact.measurement_error@.len() == 0,
            forall|i: int|
                0 <= i < noisy.measurement_error@.len() ==> #[trigger] noisy.measurement_error@[i]
                    == num(0),
            noisy == (Setting { measurement_error: noisy.measurement_error, ..exact }),
        ensures
            noisy.lhs(ar, nb) == exact.lhs(ar, nb),
    {
        assert forall|i: int| 0 <= i implies #[trigger] noisy.error_at(i) == exact.error_at(i) by {}
        let dim = nb.len() + exact.terms();
        assert forall|r: int| 0 <= r < dim implies noisy.lhs(ar, nb)[r] == exact.lhs(ar, nb)[r] by {
            assert forall|c: int| 0 <= c < dim implies noisy.lhs_cell(ar, nb, r, c)
                == exact.lhs_cell(ar, nb, r, c) by {
                if r == c && r < nb.len() {
                    assert(noisy.error_at(nb[r] as int) == exact.error_at(nb[r] as int));
                }
                if r < nb.len() {
                    assert(noisy.basis_at(ar, nb[r] as int) == exact.basis_at(ar, nb[r] as int));
                }
                if c < nb.len() {
                    assert(noisy.basis_at(ar, nb[c] as int) == exact.basis_at(ar, nb[c] as int));
                }
            }
            assert(noisy.lhs(ar, nb)[r] =~= exact.lhs(ar, nb)[r]);
        }
        assert(noisy.lhs(ar, nb) =~= exact.lhs(ar, nb));
    }
}

} // verus!

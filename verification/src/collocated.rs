//! Collocated cokriging under the Markov screening hypothesis.
//!
//! Each prediction is conditioned on the primary's own moving neighborhood plus
//! a single secondary value collocated with the target. The cross-covariance
//! follows the spatial shape of the primary (MM1) or of the secondary (MM2).
//! This is the simple-kriging form, with known means.

use vstd::prelude::*;

use crate::arith::{num, Arithmetic, Op};
use crate::covariance::{gap_of, ordered_gap, Covariance};
use crate::data::{first_duplicate, has_duplicate, PointSet};
use crate::double::{Double, HIDDEN, ONE};
use crate::error::{
    insufficient, invalid, invalid_double, invalid_of, invalid_parameter, mismatch, mismatched,
    too_little, GeostatError,
};
use crate::kriging::{copy_values, lemma_holdable, or_nan, KrigingEstimate};
use crate::linalg::{lemma_reported_is_singular, regular, reports_pivot, solution, solve};
use crate::matrix::{holdable, Matrix};
use crate::model::{invalid_kind, kind_text, ModelTraits};
use crate::neighborhood::{conditions, Lookup};
use crate::parallel::par_map;
use crate::text::{counts_text, digits};

verus! {

/// Bit pattern of minus one.
pub const MINUS_ONE: u64 = 0xBFF0_0000_0000_0000;

/// How the cross-covariance is derived from the Markov screening hypothesis.
pub enum MarkovModel<const D: usize, G> {
    /// The cross-covariance follows the primary's shape.
    Mm1,
    /// The cross-covariance follows the secondary's shape.
    Mm2 {
        /// The secondary variable's model.
        secondary_model: Covariance<D, G>,
    },
}

/// Search-neighborhood configuration (primary data only; the secondary is
/// always exactly the one value collocated with the target).
#[derive(Debug, Clone, Copy, PartialEq, Eq, Structural)]
#[non_exhaustive]
pub struct CollocatedConfig {
    /// Maximum number of nearest primary conditioning points (`None` = all).
    pub max_neighbors: Option<usize>,
    /// Maximum search distance for primary conditioning points.
    pub search_radius: Option<Double>,
    /// Ridge added to the system diagonal (stabilizes near-singular systems).
    pub ridge: Double,
}

impl Default for CollocatedConfig {
    fn default() -> (c: CollocatedConfig)
        ensures
            c == (CollocatedConfig { max_neighbors: None, search_radius: None, ridge: num(0) }),
    {
        CollocatedConfig { max_neighbors: None, search_radius: None, ridge: Double::zero() }
    }
}

impl CollocatedConfig {
    /// A configuration with these limits.
    pub fn with(
        max_neighbors: Option<usize>,
        search_radius: Option<Double>,
        ridge: Double,
    ) -> (c: CollocatedConfig)
        ensures
            c == (CollocatedConfig { max_neighbors, search_radius, ridge }),
    {
        CollocatedConfig { max_neighbors, search_radius, ridge }
    }
}

/// Known statistics of the two variables.
#[derive(Debug, Clone, Copy, PartialEq, Eq, Structural)]
pub struct PairStats {
    /// Mean of the primary.
    pub mean1: Double,
    /// Mean of the secondary.
    pub mean2: Double,
    /// Correlation of collocated pairs.
    pub rho12: Double,
    /// Standard deviation of the primary.
    pub sigma1: Double,
    /// Standard deviation of the secondary.
    pub sigma2: Double,
}

/// A correlation: finite and between minus one and one.
pub open spec fn is_correlation(rho: Double) -> bool {
    rho.finite() && num(MINUS_ONE).at_most(rho) && rho.at_most(num(ONE))
}

/// Whether this is finite and between minus one and one.
pub fn check_correlation(rho: Double) -> (b: bool)
    ensures
        b == is_correlation(rho),
{
    rho.is_finite() && num(MINUS_ONE).le(rho) && rho.le(num(ONE))
}

/// What a collocated predictor is set up with.
pub struct Pairing<'a, const D: usize, G> {
    /// The primary data.
    pub primary: &'a PointSet<D>,
    /// The primary's model.
    pub model1: &'a Covariance<D, G>,
    /// Known statistics.
    pub stats: PairStats,
    /// How the cross-covariance is derived.
    pub markov: MarkovModel<D, G>,
    /// Search neighborhood and ridge.
    pub config: CollocatedConfig,
}

/// Correlogram of a model at a separation.
pub open spec fn correlogram<const D: usize, F: Fn(Op, Double, Double) -> Double, G: Fn([Double; D]) -> Double>(
    ar: Arithmetic<F>,
    model: Covariance<D, G>,
    h: Seq<Double>,
) -> Double {
    ar.over(model.covariance(ar, h), model.sill)
}

fn correlation_at<const D: usize, F: Fn(Op, Double, Double) -> Double, G: Fn([Double; D]) -> Double>(
    model: &Covariance<D, G>,
    dh: [Double; D],
    ar: &Arithmetic<F>,
) -> (r: Double)
    requires
        ar.total(),
        model.total(),
    ensures
        r == correlogram(*ar, *model, dh@),
{
    ar.over(model.covariance_dh(dh, ar), model.sill)
}

impl<'a, const D: usize, G: Fn([Double; D]) -> Double> Pairing<'a, D, G> {
    /// The parts can be used.
    pub open spec fn well_formed(&self) -> bool {
        &&& 0 < D
        &&& self.primary.well_formed()
        &&& self.primary.places().len() < u32::MAX
        &&& self.model1.total()
        &&& self.markov matches MarkovModel::Mm2 { secondary_model } ==> secondary_model.total()
        &&& holdable(self.primary.places().len() + 1, self.primary.places().len() + 1)
    }

    /// Correlogram that the cross-covariance follows.
    pub open spec fn shape<F: Fn(Op, Double, Double) -> Double>(
        &self,
        ar: Arithmetic<F>,
        h: Seq<Double>,
    ) -> Double {
        match self.markov {
            MarkovModel::Mm1 => correlogram(ar, *self.model1, h),
            MarkovModel::Mm2 { secondary_model } => correlogram(ar, secondary_model, h),
        }
    }

    /// Cross-covariance at zero separation.
    pub open spec fn cross_at_zero<F: Fn(Op, Double, Double) -> Double>(&self, ar: Arithmetic<F>) -> Double {
        ar.times(ar.times(self.stats.rho12, self.stats.sigma1), self.stats.sigma2)
    }

    /// Cross-covariance at a separation.
    pub open spec fn c12_at<F: Fn(Op, Double, Double) -> Double>(
        &self,
        ar: Arithmetic<F>,
        h: Seq<Double>,
    ) -> Double {
        ar.times(self.cross_at_zero(ar), self.shape(ar, h))
    }

    /// Covariance of the primary at a separation, scaled to its standard
    /// deviation.
    pub open spec fn c11_at<F: Fn(Op, Double, Double) -> Double>(
        &self,
        ar: Arithmetic<F>,
        h: Seq<Double>,
    ) -> Double {
        ar.times(
            ar.times(self.stats.sigma1, self.stats.sigma1),
            correlogram(ar, *self.model1, h),
        )
    }

    /// Entry of the system matrix.
    pub open spec fn lhs_cell<F: Fn(Op, Double, Double) -> Double>(
        &self,
        ar: Arithmetic<F>,
        nb: Seq<usize>,
        target: Seq<Double>,
        r: int,
        c: int,
    ) -> Double {
        let n = nb.len();
        let places = self.primary.places();
        if r < n && c < n {
            if r == c {
                ar.plus(ar.times(self.stats.sigma1, self.stats.sigma1), self.config.ridge)
            } else {
                self.c11_at(ar, ordered_gap(ar, places, nb, r, c))
            }
        } else if r < n {
            self.c12_at(ar, ar.separation(places[nb[r] as int]@, target))
        } else if c < n {
            self.c12_at(ar, ar.separation(places[nb[c] as int]@, target))
        } else {
            ar.plus(ar.times(self.stats.sigma2, self.stats.sigma2), self.config.ridge)
        }
    }

    /// The system matrix: the primary neighborhood, then the secondary.
    pub open spec fn lhs<F: Fn(Op, Double, Double) -> Double>(
        &self,
        ar: Arithmetic<F>,
        nb: Seq<usize>,
        target: Seq<Double>,
    ) -> Seq<
        Seq<Double>,
    > {
        let dim = nb.len() + 1;
        Seq::new(dim, |r: int| Seq::new(dim, |c: int| self.lhs_cell(ar, nb, target, r, c)))
    }

    /// Right-hand side.
    pub open spec fn rhs<F: Fn(Op, Double, Double) -> Double>(
        &self,
        ar: Arithmetic<F>,
        nb: Seq<usize>,
        target: Seq<Double>,
    ) -> Seq<
        Double,
    > {
        Seq::new(
            nb.len() + 1,
            |r: int|
                if r < nb.len() {
                    self.c11_at(
                        ar,
                        ar.separation(self.primary.places()[nb[r] as int]@, target),
                    )
                } else {
                    self.cross_at_zero(ar)
                },
        )
    }

    /// Deviations of the neighbors from the primary's mean.
    pub open spec fn deviations<F: Fn(Op, Double, Double) -> Double>(
        &self,
        ar: Arithmetic<F>,
        nb: Seq<usize>,
    ) -> Seq<Double> {
        Seq::new(
            nb.len(),
            |i: int| ar.minus(self.primary.attributes()[nb[i] as int], self.stats.mean1),
        )
    }

    /// The estimate that weights give.
    pub open spec fn weighted<F: Fn(Op, Double, Double) -> Double>(
        &self,
        ar: Arithmetic<F>,
        nb: Seq<usize>,
        secondary: Double,
        w: Seq<Double>,
        b: Seq<Double>,
    ) -> KrigingEstimate {
        let n = nb.len() as int;
        KrigingEstimate {
            value: ar.dot_from(
                ar.plus(
                    self.stats.mean1,
                    ar.times(w[n], ar.minus(secondary, self.stats.mean2)),
                ),
                w,
                self.deviations(ar, nb),
                n,
            ),
            variance: ar.minus(
                ar.times(self.stats.sigma1, self.stats.sigma1),
                ar.dot_from(ar.times(w[n], self.cross_at_zero(ar)), w, b, n),
            ).max(num(0)),
            lagrange: None,
        }
    }

    /// What collocated cokriging with these conditioning points gives.
    pub open spec fn kriged<F: Fn(Op, Double, Double) -> Double>(
        &self,
        ar: Arithmetic<F>,
        target: [Double; D],
        secondary: Double,
        nb: Seq<usize>,
        r: Result<KrigingEstimate, GeostatError>,
    ) -> bool {
        let a = self.lhs(ar, nb, target@);
        let b = self.rhs(ar, nb, target@);
        if !regular(ar, a) {
            r matches Err(e) && reports_pivot(ar, a, e)
        } else {
            r matches Ok(e) && exists|w: Seq<Double>| #[trigger]
                solution(ar, a, b, w) && e == self.weighted(ar, nb, secondary, w, b)
        }
    }

    /// What prediction at a target gives.
    pub open spec fn predicted<F: Fn(Op, Double, Double) -> Double>(
        &self,
        ar: Arithmetic<F>,
        target: [Double; D],
        secondary: Double,
        r: Result<KrigingEstimate, GeostatError>,
    ) -> bool {
        exists|nb: Seq<usize>| #[trigger]
            conditions(
                ar,
                self.primary.places(),
                self.config.max_neighbors,
                self.config.search_radius,
                target,
                nb,
            ) && self.kriged(ar, target, secondary, nb, r)
    }

    fn c12<F: Fn(Op, Double, Double) -> Double>(&self, dh: [Double; D], ar: &Arithmetic<F>) -> (r: Double)
        requires
            self.well_formed(),
            ar.total(),
        ensures
            r == self.c12_at(*ar, dh@),
    {
        let shape: Double = match &self.markov {
            MarkovModel::Mm1 => correlation_at(self.model1, dh, ar),
            MarkovModel::Mm2 { secondary_model } => correlation_at(secondary_model, dh, ar),
        };
        ar.times(
            ar.times(ar.times(self.stats.rho12, self.stats.sigma1), self.stats.sigma2),
            shape,
        )
    }

    fn c11<F: Fn(Op, Double, Double) -> Double>(&self, dh: [Double; D], ar: &Arithmetic<F>) -> (r: Double)
        requires
            self.well_formed(),
            ar.total(),
        ensures
            r == self.c11_at(*ar, dh@),
    {
        ar.times(
            ar.times(self.stats.sigma1, self.stats.sigma1),
            correlation_at(self.model1, dh, ar),
        )
    }

    fn build<F: Fn(Op, Double, Double) -> Double>(
        &self,
        nb: &Vec<usize>,
        target: &[Double; D],
        ar: &Arithmetic<F>,
    ) -> (r: (
        Matrix,
        Vec<Double>,
    ))
        requires
            self.well_formed(),
            ar.total(),
            nb.len() <= self.primary.places().len(),
            forall|i: int| 0 <= i < nb.len() ==> (#[trigger] nb@[i]) < self.primary.places().len(),
        ensures
            r.0.square(nb@.len() + 1),
            r.0.rows() == self.lhs(*ar, nb@, target@),
            r.1@ == self.rhs(*ar, nb@, target@),
    {
        let n: usize = nb.len();
        let coords: &Vec<[Double; D]> = self.primary.coords();
        let mut rows: Vec<Vec<Double>> = Vec::new();
        let mut b: Vec<Double> = Vec::new();
        for r in 0..n + 1
            invariant
                self.well_formed(),
                ar.total(),
                n == nb.len(),
                n < usize::MAX,
                coords@ == self.primary.places(),
                forall|i: int| 0 <= i < n ==> (#[trigger] nb@[i]) < coords.len(),
                rows.len() == r,
                b.len() == r,
                forall|j: int| 0 <= j < r ==> (#[trigger] rows@[j])@ == self.lhs(*ar, nb@, target@)[j],
                forall|j: int| 0 <= j < r ==> #[trigger] b@[j] == self.rhs(*ar, nb@, target@)[j],
        {
            let mut row: Vec<Double> = Vec::new();
            for c in 0..n + 1
                invariant
                    self.well_formed(),
                    ar.total(),
                    n == nb.len(),
                    n < usize::MAX,
                    r <= n,
                    coords@ == self.primary.places(),
                    forall|i: int| 0 <= i < n ==> (#[trigger] nb@[i]) < coords.len(),
                    row.len() == c,
                    forall|j: int|
                        0 <= j < c ==> #[trigger] row@[j] == self.lhs_cell(
                            *ar,
                            nb@,
                            target@,
                            r as int,
                            j,
                        ),
            {
                let v: Double = if r < n && c < n {
                    if r == c {
                        ar.plus(ar.times(self.stats.sigma1, self.stats.sigma1), self.config.ridge)
                    } else {
                        self.c11(gap_of(coords, nb, r, c, ar), ar)
                    }
                } else if r < n {
                    self.c12(ar.sep(&coords[nb[r]], target), ar)
                } else if c < n {
                    self.c12(ar.sep(&coords[nb[c]], target), ar)
                } else {
                    ar.plus(ar.times(self.stats.sigma2, self.stats.sigma2), self.config.ridge)
                };
                row.push(v);
            }
            assert(row@ =~= self.lhs(*ar, nb@, target@)[r as int]);
            rows.push(row);
            if r < n {
                b.push(self.c11(ar.sep(&coords[nb[r]], target), ar));
            } else {
                b.push(
                    ar.times(ar.times(self.stats.rho12, self.stats.sigma1), self.stats.sigma2),
                );
            }
        }
        proof {
            lemma_holdable((n + 1) as nat, self.primary.places().len() + 1);
        }
        let a: Matrix = Matrix::from_rows(&rows, n + 1);
        assert(a.rows() =~= self.lhs(*ar, nb@, target@));
        assert(b@ =~= self.rhs(*ar, nb@, target@));
        (a, b)
    }
}

/// Collocated cokriging predictor: a primary point set with its moving
/// neighborhood, plus one secondary value collocated with each target.
pub struct CollocatedCokriging<'a, const D: usize, G> {
    pairing: Pairing<'a, D, G>,
    lookup: Lookup<D>,
}

/// Traits of the secondary's model, where the cross-covariance follows it.
pub open spec fn secondary_traits<const D: usize, G>(markov: MarkovModel<D, G>) -> Option<
    ModelTraits,
> {
    match markov {
        MarkovModel::Mm1 => None,
        MarkovModel::Mm2 { secondary_model } => Some(secondary_model.traits),
    }
}

/// Some model has no covariance function.
pub open spec fn any_power(first: ModelTraits, second: Option<ModelTraits>) -> bool {
    first.has_power || (second is Some && second->0.has_power)
}

/// Name of a structure that is no valid covariance, of the first model before
/// that of the second.
pub open spec fn offender(first: ModelTraits, second: Option<ModelTraits>) -> Option<String> {
    if first.invalid_kind is Some {
        first.invalid_kind
    } else if second is Some {
        second->0.invalid_kind
    } else {
        None
    }
}

impl<'a, const D: usize, G: Fn([Double; D]) -> Double> CollocatedCokriging<'a, D, G> {
    /// What the predictor is set up with.
    pub closed spec fn pairing(&self) -> Pairing<'a, D, G> {
        self.pairing
    }

    /// The predictor is ready.
    pub closed spec fn well_formed(&self) -> bool {
        &&& self.pairing.well_formed()
        &&& self.lookup.well_formed()
        &&& self.lookup.places() == self.pairing.primary.places()
        &&& self.lookup.most() == self.pairing.config.max_neighbors
        &&& self.lookup.reach() == self.pairing.config.search_radius
    }

    /// The parameters are in order.
    pub open spec fn accepts(
        primary: &PointSet<D>,
        model1: &Covariance<D, G>,
        stats: PairStats,
        markov: MarkovModel<D, G>,
        config: CollocatedConfig,
    ) -> bool {
        let second = secondary_traits(markov);
        &&& !any_power(model1.traits, second)
        &&& offender(model1.traits, second) is None
        &&& is_correlation(stats.rho12)
        &&& stats.sigma1.is_positive()
        &&& stats.sigma2.is_positive()
        &&& config.ridge.finite()
        &&& num(0).at_most(config.ridge)
        &&& !has_duplicate(primary.places())
    }

    /// Why they are not: the first check that fails.
    pub open spec fn refuses(
        primary: &PointSet<D>,
        model1: &Covariance<D, G>,
        stats: PairStats,
        markov: MarkovModel<D, G>,
        config: CollocatedConfig,
        e: GeostatError,
    ) -> bool {
        let second = secondary_traits(markov);
        if any_power(model1.traits, second) {
            invalid(
                e,
                "collocated co-kriging needs a valid covariance function and cannot use the unbounded Power model"@,
            )
        } else if offender(model1.traits, second) is Some {
            invalid(e, kind_text(offender(model1.traits, second)->0@, D as nat))
        } else if !is_correlation(stats.rho12) {
            invalid_of(e, "rho12 must be finite and in [-1, 1], got {}"@, seq![stats.rho12])
        } else if !stats.sigma1.is_positive() || !stats.sigma2.is_positive() {
            invalid(e, "sigma1/sigma2 must be finite and > 0"@)
        } else if !config.ridge.finite() || !num(0).at_most(config.ridge) {
            invalid(e, "ridge must be finite and >= 0"@)
        } else {
            e matches GeostatError::DuplicatePoints(i, j) && first_duplicate(
                primary.places(),
                i as int,
                j as int,
            )
        }
    }

    /// Builds a collocated cokriging predictor.
    ///
    /// The means are those of the primary and the secondary variable; the
    /// correlation and the standard deviations can be estimated from collocated
    /// pairs by [`estimate_collocated_stats`].
    pub fn new(
        primary: &'a PointSet<D>,
        model1: &'a Covariance<D, G>,
        mean1: Double,
        mean2: Double,
        rho12: Double,
        sigma1: Double,
        sigma2: Double,
        markov: MarkovModel<D, G>,
        config: CollocatedConfig,
    ) -> (r: Result<Self, GeostatError>)
        requires
            0 < D,
            primary.well_formed(),
            primary.places().len() < u32::MAX,
            model1.total(),
            markov matches MarkovModel::Mm2 { secondary_model } ==> secondary_model.total(),
            holdable(primary.places().len() + 1, primary.places().len() + 1),
        ensures
            ({
                let stats = PairStats { mean1, mean2, rho12, sigma1, sigma2 };
                match r {
                Ok(k) => {
                    &&& Self::accepts(primary, model1, stats, markov, config)
                    &&& k.well_formed()
                    &&& k.pairing() == (Pairing { primary, model1, stats, markov, config })
                },
                Err(e) => !Self::accepts(primary, model1, stats, markov, config) && Self::refuses(
                    primary,
                    model1,
                    stats,
                    markov,
                    config,
                    e,
                ),
                }
            }),
    {
        let stats: PairStats = PairStats { mean1, mean2, rho12, sigma1, sigma2 };
        let second_power: bool = match &markov {
            MarkovModel::Mm1 => false,
            MarkovModel::Mm2 { secondary_model } => secondary_model.traits.has_power,
        };
        if model1.traits.has_power || second_power {
            return Err(
                invalid_parameter(
                    "collocated co-kriging needs a valid covariance function and cannot use the unbounded Power model",
                ),
            );
        }
        if let Some(kind) = &model1.traits.invalid_kind {
            return Err(invalid_kind(kind, D));
        }
        if let MarkovModel::Mm2 { secondary_model } = &markov {
            if let Some(kind) = &secondary_model.traits.invalid_kind {
                return Err(invalid_kind(kind, D));
            }
        }
        if !check_correlation(stats.rho12) {
            return Err(
                invalid_double("rho12 must be finite and in [-1, 1], got {}", stats.rho12),
            );
        }
        if !stats.sigma1.is_positive() || !stats.sigma2.is_positive() {
            return Err(invalid_parameter("sigma1/sigma2 must be finite and > 0"));
        }
        if !config.ridge.is_finite() || !num(0).le(config.ridge) {
            return Err(invalid_parameter("ridge must be finite and >= 0"));
        }
        if let Some((i, j)) = primary.duplicate_pair() {
            return Err(GeostatError::DuplicatePoints(i, j));
        }
        let lookup: Lookup<D> = Lookup::new(
            primary.coords(),
            config.max_neighbors,
            config.search_radius,
        );
        Ok(
            CollocatedCokriging {
                pairing: Pairing { primary, model1, stats, markov, config },
                lookup,
            },
        )
    }

    /// Cross-covariance of the primary and the secondary variable at a separation.
    pub fn c12<F: Fn(Op, Double, Double) -> Double>(&self, dh: [Double; D], ar: &Arithmetic<F>) -> (r: Double)
        requires
            self.well_formed(),
            ar.total(),
        ensures
            r == self.pairing().c12_at(*ar, dh@),
    {
        self.pairing.c12(dh, ar)
    }

    /// Predicts the primary variable at `target`, given the secondary value
    /// collocated with it. With no primary neighbors this is simple linear
    /// regression on the secondary alone.
    pub fn predict<F: Fn(Op, Double, Double) -> Double>(
        &self,
        target: [Double; D],
        secondary_at_target: Double,
        ar: &Arithmetic<F>,
    ) -> (r: Result<KrigingEstimate, GeostatError>)
        requires
            self.well_formed(),
            ar.ieee(),
        ensures
            self.pairing().predicted(*ar, target, secondary_at_target, r),
    {
        let nb: Vec<usize> = self.lookup.around(target, ar);
        let ghost p = self.pairing;
        let n: usize = nb.len();
        let (a, b): (Matrix, Vec<Double>) = self.pairing.build(&nb, &target, ar);
        let b0: Vec<Double> = copy_values(&b);
        let ghost lhs = p.lhs(*ar, nb@, target@);
        let w: Vec<Double> = match solve(a, b, ar) {
            Ok(w) => w,
            Err(e) => {
                proof {
                    lemma_reported_is_singular(*ar, lhs, e);
                    assert(p.kriged(*ar, target, secondary_at_target, nb@, Err(e)));
                }
                return Err(e);
            },
        };
        assert(solution(*ar, lhs, b0@, w@));
        let stats: PairStats = self.pairing.stats;
        let mut deviations: Vec<Double> = Vec::new();
        for i in 0..n
            invariant
                ar.total(),
                n == nb.len(),
                p == self.pairing,
                stats == p.stats,
                p.well_formed(),
                forall|j: int| 0 <= j < n ==> (#[trigger] nb@[j]) < p.primary.places().len(),
                deviations@ =~= p.deviations(*ar, nb@).take(i as int),
        {
            deviations.push(ar.minus(self.pairing.primary.value(nb[i]), stats.mean1));
        }
        assert(deviations@ =~= p.deviations(*ar, nb@));
        let c12_0: Double = ar.times(ar.times(stats.rho12, stats.sigma1), stats.sigma2);
        let start: Double = ar.plus(
            stats.mean1,
            ar.times(w[n], ar.minus(secondary_at_target, stats.mean2)),
        );
        let value: Double = ar.dot(start, &w, &deviations, n);
        let reduction: Double = ar.dot(ar.times(w[n], c12_0), &w, &b0, n);
        let variance: Double = ar.minus(ar.times(stats.sigma1, stats.sigma1), reduction).max(
            num(0),
        );
        let e: KrigingEstimate = KrigingEstimate { value, variance, lagrange: None };
        assert(e == p.weighted(*ar, nb@, secondary_at_target, w@, b0@));
        assert(p.kriged(*ar, target, secondary_at_target, nb@, Ok(e)));
        Ok(e)
    }

    /// `e` is the estimate at a target, or NaN where prediction fails.
    pub open spec fn filled<F: Fn(Op, Double, Double) -> Double>(
        &self,
        ar: Arithmetic<F>,
        target: [Double; D],
        secondary: Double,
        e: KrigingEstimate,
    ) -> bool {
        exists|r: Result<KrigingEstimate, GeostatError>| #[trigger]
            self.pairing().predicted(ar, target, secondary, r) && e == or_nan(r)
    }

    fn predict_or_nan<F: Fn(Op, Double, Double) -> Double>(
        &self,
        target: [Double; D],
        secondary: Double,
        ar: &Arithmetic<F>,
    ) -> (e:
        KrigingEstimate)
        requires
            self.well_formed(),
            ar.ieee(),
        ensures
            self.filled(*ar, target, secondary, e),
    {
        let r: Result<KrigingEstimate, GeostatError> = self.predict(target, secondary, ar);
        assert(self.pairing().predicted(*ar, target, secondary, r));
        crate::kriging::fill_nan(r)
    }
}

impl<'a, const D: usize, G: Fn([Double; D]) -> Double + Sync> CollocatedCokriging<'a, D, G> {
    /// Predictions at many targets, in parallel. `secondary[i]` is the
    /// secondary value collocated with `targets[i]`. A target that fails gets a
    /// NaN estimate.
    pub fn predict_many<F: Fn(Op, Double, Double) -> Double + Sync>(
        &self,
        targets: &Vec<[Double; D]>,
        secondary: &Vec<Double>,
        ar: &Arithmetic<F>,
    ) -> (r: Result<Vec<KrigingEstimate>, GeostatError>)
        requires
            self.well_formed(),
            ar.ieee(),
        ensures
            match r {
                Ok(out) => {
                    &&& targets.len() == secondary.len()
                    &&& out.len() == targets.len()
                    &&& forall|i: int|
                        0 <= i < out.len() ==> self.filled(
                            *ar,
                            targets@[i],
                            secondary@[i],
                            #[trigger] out@[i],
                        )
                },
                Err(e) => targets.len() != secondary.len() && mismatch(
                    e,
                    digits(targets@.len()) + " targets vs "@ + digits(secondary@.len())
                        + " secondary values"@,
                ),
            },
    {
        if targets.len() != secondary.len() {
            return Err(
                mismatched(
                    counts_text(targets.len(), " targets vs ", secondary.len(), " secondary values"),
                ),
            );
        }
        let one = |i: usize| -> (e: KrigingEstimate)
            requires
                i < targets.len(),
                targets.len() == secondary.len(),
                self.well_formed(),
                ar.ieee(),
            ensures
                self.filled(*ar, targets@[i as int], secondary@[i as int], e),
            { self.predict_or_nan(targets[i], secondary[i], ar) };
        Ok(par_map(targets.len(), one))
    }
}

/// Sum of the products of the deviations of two lists, for the first `n` pairs.
pub open spec fn joint_scatter<F: Fn(Op, Double, Double) -> Double>(
    ar: Arithmetic<F>,
    xs: Seq<Double>,
    mx: Double,
    ys: Seq<Double>,
    my: Double,
    n: int,
) -> Double
    decreases n,
{
    if n <= 0 {
        num(0)
    } else {
        ar.plus(
            joint_scatter(ar, xs, mx, ys, my, n - 1),
            ar.times(ar.minus(xs[n - 1], mx), ar.minus(ys[n - 1], my)),
        )
    }
}

/// Standard deviation about the mean.
pub open spec fn deviation_of<F: Fn(Op, Double, Double) -> Double>(
    ar: Arithmetic<F>,
    xs: Seq<Double>,
) -> Double {
    ar.sqrt(
        ar.over(
            joint_scatter(
                ar,
                xs,
                ar.average_of(xs),
                xs,
                ar.average_of(xs),
                xs.len() as int,
            ),
            Double::count(xs.len()),
        ),
    )
}

/// Correlation of two lists, kept between minus one and one.
pub open spec fn correlation_of<F: Fn(Op, Double, Double) -> Double>(
    ar: Arithmetic<F>,
    xs: Seq<Double>,
    ys: Seq<Double>,
) -> Double {
    ar.over(
        ar.over(
            joint_scatter(
                ar,
                xs,
                ar.average_of(xs),
                ys,
                ar.average_of(ys),
                xs.len() as int,
            ),
            Double::count(xs.len()),
        ),
        ar.times(deviation_of(ar, xs), deviation_of(ar, ys)),
    ).clamp(num(MINUS_ONE), num(ONE))
}

/// What the statistics of collocated pairs are.
pub open spec fn stats_outcome<F: Fn(Op, Double, Double) -> Double>(
    ar: Arithmetic<F>,
    primary: Seq<Double>,
    secondary: Seq<Double>,
    r: Result<(Double, Double, Double), GeostatError>,
) -> bool {
    if primary.len() != secondary.len() {
        r matches Err(e) && mismatch(
            e,
            digits(primary.len()) + " primary values vs "@ + digits(secondary.len())
                + " secondary values"@,
        )
    } else if primary.len() < 2 {
        r matches Err(e) && insufficient(
            e,
            "at least 2 collocated pairs are needed to estimate correlation"@,
        )
    } else if !deviation_of(ar, primary).is_positive() || !deviation_of(
        ar,
        secondary,
    ).is_positive() {
        r matches Err(e) && invalid(e, "primary/secondary values have zero variance"@)
    } else {
        r == Ok::<(Double, Double, Double), GeostatError>(
            (
                correlation_of(ar, primary, secondary),
                deviation_of(ar, primary),
                deviation_of(ar, secondary),
            ),
        )
    }
}

/// Estimates correlation and standard deviations from collocated sample pairs:
/// Pearson correlation and sample standard deviations.
pub fn estimate_collocated_stats<F: Fn(Op, Double, Double) -> Double>(
    primary: &Vec<Double>,
    secondary: &Vec<Double>,
    ar: &Arithmetic<F>,
) -> (r: Result<(Double, Double, Double), GeostatError>)
    requires
        ar.total(),
        primary.len() < 2 * HIDDEN,
    ensures
        stats_outcome(*ar, primary@, secondary@, r),
{
    if primary.len() != secondary.len() {
        return Err(
            mismatched(
                counts_text(
                    primary.len(),
                    " primary values vs ",
                    secondary.len(),
                    " secondary values",
                ),
            ),
        );
    }
    let n: usize = primary.len();
    if n < 2 {
        return Err(too_little("at least 2 collocated pairs are needed to estimate correlation"));
    }
    let n_f: Double = Double::from_count(n);
    let m1: Double = ar.mean(primary);
    let m2: Double = ar.mean(secondary);
    let mut s11: Double = Double::zero();
    let mut s22: Double = Double::zero();
    let mut s12: Double = Double::zero();
    for i in 0..n
        invariant
            ar.total(),
            n == primary.len(),
            n == secondary.len(),
            s11 == joint_scatter(*ar, primary@, m1, primary@, m1, i as int),
            s22 == joint_scatter(*ar, secondary@, m2, secondary@, m2, i as int),
            s12 == joint_scatter(*ar, primary@, m1, secondary@, m2, i as int),
    {
        let d1: Double = ar.minus(primary[i], m1);
        let d2: Double = ar.minus(secondary[i], m2);
        s11 = ar.plus(s11, ar.times(d1, d1));
        s22 = ar.plus(s22, ar.times(d2, d2));
        s12 = ar.plus(s12, ar.times(d1, d2));
    }
    let sigma1: Double = ar.sqrt(ar.over(s11, n_f));
    let sigma2: Double = ar.sqrt(ar.over(s22, n_f));
    if !sigma1.is_positive() || !sigma2.is_positive() {
        return Err(invalid_parameter("primary/secondary values have zero variance"));
    }
    let rho12: Double = ar.over(ar.over(s12, n_f), ar.times(sigma1, sigma2)).clamp(
        num(MINUS_ONE),
        num(ONE),
    );
    Ok((rho12, sigma1, sigma2))
}

} // verus!

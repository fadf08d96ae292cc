//! Warped kriging: data are mapped onto a Gaussian axis by a marginal transport
//! map and kriged there; predictions come back by Monte Carlo.

use vstd::prelude::*;

use crate::arith::{num, Arithmetic, Op};
use crate::covariance::Covariance;
use crate::data::PointSet;
use crate::double::{Double, HIDDEN, ONE};
use crate::error::{invalid, invalid_parameter, GeostatError};
use crate::grid::Grid2D;
use crate::kriging::{Kriging, KrigingConfig, KrigingEstimate};
use crate::marginal::{find_variance, variance_of, FittedMarginal, MarginalTransport};
use crate::order::{sort_positions, stable_order};
use crate::parallel::par_try_map;
use crate::regression::{kriging_ok, kriging_refused, revalue, revalued};
use crate::rng::{draws_normals, lively, Rng, Words};
use crate::transform::{arranged, total_keys};

verus! {

/// Factor that sets the seeds of neighboring cells apart.
pub const SEED_STRIDE: u64 = 0x9E37_79B9;

/// A warped-kriging prediction in data units.
#[derive(Debug, PartialEq, Eq)]
pub struct WarpedEstimate {
    /// Mean of the draws.
    pub mean: Double,
    /// Standard deviation of the draws.
    pub std: Double,
    /// Quantiles, in the order asked for.
    pub quantiles: Vec<Double>,
}

/// Warped kriging predictor: a fitted marginal and a model of the latent data.
pub struct TransportKriging<'a, T, const D: usize, G> {
    latent: PointSet<D>,
    marginal: FittedMarginal<T>,
    model: &'a Covariance<D, G>,
    config: KrigingConfig,
}

/// Latent values of data.
pub open spec fn latent_values<F: Fn(Op, Double, Double) -> Double, T: MarginalTransport<F>>(
    ar: Arithmetic<F>,
    m: FittedMarginal<T>,
    values: Seq<Double>,
) -> Seq<Double> {
    Seq::new(values.len(), |i: int| m.latent(ar, values[i]))
}

/// Every quantile lies in [0, 1].
pub open spec fn quantiles_ok(qs: Seq<Double>) -> bool {
    forall|i: int|
        0 <= i < qs.len() ==> num(0).le(#[trigger] qs[i]) && qs[i].le(num(ONE))
}

/// Draws in data units: normals spread about the latent estimate, mapped back.
pub open spec fn mapped_draws<F: Fn(Op, Double, Double) -> Double, T: MarginalTransport<F>>(
    ar: Arithmetic<F>,
    m: FittedMarginal<T>,
    e: KrigingEstimate,
    zs: Seq<Double>,
) -> Seq<Double> {
    let sd = ar.sqrt(e.variance.max(num(0)));
    Seq::new(zs.len(), |i: int| m.data(ar, ar.plus(e.value, ar.times(sd, zs[i]))))
}

/// Position of a quantile among `n` sorted draws: rounded, and not beyond the
/// last.
pub open spec fn quantile_index<F: Fn(Op, Double, Double) -> Double>(
    ar: Arithmetic<F>,
    q: Double,
    n: nat,
) -> int {
    let x = ar.times(q, ar.minus(Double::count(n), num(ONE)));
    let i = x.saturated(x.rounded());
    if i < 0 {
        0
    } else if i > n - 1 {
        n - 1
    } else {
        i
    }
}

/// The estimate of draws.
pub open spec fn summarizes<F: Fn(Op, Double, Double) -> Double>(
    ar: Arithmetic<F>,
    draws: Seq<Double>,
    quantiles: Seq<Double>,
    w: WarpedEstimate,
) -> bool {
    &&& w.mean == ar.average_of(draws)
    &&& w.std == ar.sqrt(variance_of(ar, draws))
    &&& exists|order: Seq<usize>| #[trigger]
        stable_order(total_keys(draws), order) && w.quantiles@ == Seq::new(
            quantiles.len(),
            |i: int| arranged(draws, order)[quantile_index(ar, quantiles[i], draws.len())],
        )
}

/// Mean, standard deviation and quantiles of draws.
pub fn summarize<F: Fn(Op, Double, Double) -> Double>(
    draws: &Vec<Double>,
    quantiles: &Vec<Double>,
    ar: &Arithmetic<F>,
) -> (w: WarpedEstimate)
    requires
        ar.total(),
        0 < draws@.len() < 2 * HIDDEN,
    ensures
        summarizes(*ar, draws@, quantiles@, w),
{
    let n: usize = draws.len();
    let mean: Double = ar.mean(draws);
    let var: Double = find_variance(draws, mean, ar);
    let mut keys: Vec<i64> = Vec::new();
    for i in 0..n
        invariant
            n == draws.len(),
            keys@ =~= total_keys(draws@).take(i as int),
    {
        keys.push(draws[i].total_key());
    }
    assert(keys@ =~= total_keys(draws@));
    let order: Vec<usize> = sort_positions(keys.as_slice());
    assert(stable_order(total_keys(draws@), order@));
    let last: Double = ar.minus(Double::from_count(n), num(ONE));
    let ghost want = Seq::new(
        quantiles@.len(),
        |i: int| arranged(draws@, order@)[quantile_index(*ar, quantiles@[i], draws@.len())],
    );
    let mut qs: Vec<Double> = Vec::new();
    for i in 0..quantiles.len()
        invariant
            ar.total(),
            n == draws.len(),
            n > 0,
            n < 2 * HIDDEN,
            stable_order(total_keys(draws@), order@),
            last == ar.minus(Double::count(n as nat), num(ONE)),
            want == Seq::new(
                quantiles@.len(),
                |i: int| arranged(draws@, order@)[quantile_index(*ar, quantiles@[i], draws@.len())],
            ),
            qs@ =~= want.take(i as int),
    {
        let x: i64 = ar.times(quantiles[i], last).round();
        let at: usize = if x < 0 {
            0
        } else if x as u64 > (n - 1) as u64 {
            n - 1
        } else {
            x as usize
        };
        assert(at == quantile_index(*ar, quantiles@[i as int], draws@.len()));
        assert(order@[at as int] < n);
        qs.push(draws[order[at]]);
    }
    assert(qs@ =~= want);
    WarpedEstimate { mean, std: ar.sqrt(var), quantiles: qs }
}

impl<'a, T, const D: usize, G: Fn([Double; D]) -> Double> TransportKriging<'a, T, D, G> {
    /// The latent data.
    pub closed spec fn warped(&self) -> PointSet<D> {
        self.latent
    }

    /// The fitted marginal.
    pub closed spec fn map(&self) -> FittedMarginal<T> {
        self.marginal
    }

    /// The model of the latent data.
    pub closed spec fn latent_model(&self) -> &Covariance<D, G> {
        self.model
    }

    /// Method and search neighborhood.
    pub closed spec fn settings(&self) -> KrigingConfig {
        self.config
    }

    /// The predictor can predict.
    pub open spec fn ready<F: Fn(Op, Double, Double) -> Double>(&self, ar: &Arithmetic<F>) -> bool {
        Kriging::usable(*ar, &self.warped(), self.latent_model(), self.settings().method)
    }

    /// Builds a predictor from data, a fitted marginal and a model of the latent
    /// data.
    pub fn new<F: Fn(Op, Double, Double) -> Double>(
        data: &PointSet<D>,
        marginal: FittedMarginal<T>,
        latent_model: &'a Covariance<D, G>,
        config: KrigingConfig,
        ar: &Arithmetic<F>,
    ) -> (r: Result<Self, GeostatError>) where T: MarginalTransport<F>,

        requires
            ar.total(),
            data.well_formed(),
            data.places().len() > 0,
        ensures
            match r {
                Ok(k) => {
                    &&& revalued(
                        data.places(),
                        latent_values(*ar, marginal, data.attributes()),
                        Ok::<PointSet<D>, GeostatError>(k.warped()),
                    )
                    &&& k.map() == marginal
                    &&& k.latent_model() == latent_model
                    &&& k.settings() == config
                },
                Err(e) => revalued(
                    data.places(),
                    latent_values(*ar, marginal, data.attributes()),
                    Err::<PointSet<D>, GeostatError>(e),
                ),
            },
    {
        let n: usize = data.len();
        let ghost want = latent_values(*ar, marginal, data.attributes());
        let mut values: Vec<Double> = Vec::new();
        for i in 0..n
            invariant
                ar.total(),
                data.well_formed(),
                n == data.places().len(),
                want == latent_values(*ar, marginal, data.attributes()),
                values@ =~= want.take(i as int),
        {
            values.push(marginal.to_latent(data.value(i), ar));
        }
        assert(values@ =~= want);
        match revalue(data, values) {
            Err(e) => Err(e),
            Ok(latent) => Ok(TransportKriging { latent, marginal, model: latent_model, config }),
        }
    }

    /// The latent data, to fit or inspect their variogram.
    pub fn latent(&self) -> (p: &PointSet<D>)
        ensures
            *p == self.warped(),
    {
        &self.latent
    }

    /// `w` is the prediction from a latent estimate.
    pub open spec fn draws<F: Fn(Op, Double, Double) -> Double>(
        &self,
        ar: Arithmetic<F>,
        e: KrigingEstimate,
        quantiles: Seq<Double>,
        n_samples: nat,
        seed: u64,
        w: WarpedEstimate,
    ) -> bool where T: MarginalTransport<F> {
        exists|zs: Seq<Double>, w2: Words, spare: Option<Double>| #[trigger]
            draws_normals(ar, Words::seeded(seed), None, zs, w2, spare) && zs.len() == n_samples
                && summarizes(ar, mapped_draws(ar, self.map(), e, zs), quantiles, w)
    }

    /// What prediction gives, once the arguments are in order and the predictor
    /// is built.
    pub open spec fn warps<F: Fn(Op, Double, Double) -> Double>(
        &self,
        ar: Arithmetic<F>,
        k: Kriging<'a, D, G>,
        target: [Double; D],
        quantiles: Seq<Double>,
        n_samples: nat,
        seed: u64,
        r: Result<WarpedEstimate, GeostatError>,
    ) -> bool where T: MarginalTransport<F> {
        exists|est: Result<KrigingEstimate, GeostatError>| #[trigger]
            k.answers(ar, target, est) && match est {
                Err(e) => r == Err::<WarpedEstimate, GeostatError>(e),
                Ok(e) => r matches Ok(w) && self.draws(ar, e, quantiles, n_samples, seed, w),
            }
    }

    /// What prediction gives.
    pub open spec fn predicted<F: Fn(Op, Double, Double) -> Double>(
        &self,
        ar: Arithmetic<F>,
        target: [Double; D],
        quantiles: Seq<Double>,
        n_samples: usize,
        seed: u64,
        r: Result<WarpedEstimate, GeostatError>,
    ) -> bool where T: MarginalTransport<F> {
        let has_power = self.latent_model().traits.has_power;
        let places = self.warped().places();
        if n_samples < 2 {
            r matches Err(e) && invalid(
                e,
                "warped kriging needs at least 2 Monte Carlo samples"@,
            )
        } else if !quantiles_ok(quantiles) {
            r matches Err(e) && invalid(e, "quantiles must lie in [0, 1]"@)
        } else if !kriging_ok(self.settings(), has_power, places) {
            r matches Err(e) && kriging_refused(self.settings(), has_power, places, e)
        } else {
            exists|k: Kriging<'a, D, G>| #[trigger]
                k.built(
                    ar,
                    &self.warped(),
                    self.latent_model(),
                    self.settings(),
                    Seq::empty(),
                    Seq::empty(),
                ) && self.warps(ar, k, target, quantiles, n_samples as nat, seed, r)
        }
    }

    /// Warped-kriging prediction at a target: draws from the latent Gaussian are
    /// mapped back to estimate the mean, the standard deviation and quantiles in
    /// [0, 1]. One seed gives one result.
    pub fn predict<F: Fn(Op, Double, Double) -> Double>(
        &self,
        target: [Double; D],
        quantiles: &Vec<Double>,
        n_samples: usize,
        seed: u64,
        ar: &Arithmetic<F>,
    ) -> (r: Result<WarpedEstimate, GeostatError>) where T: MarginalTransport<F>,

        requires
            self.ready(ar),
            lively(Words::seeded(seed)),
            n_samples < 2 * HIDDEN,
        ensures
            self.predicted(*ar, target, quantiles@, n_samples, seed, r),
    {
        if n_samples < 2 {
            return Err(invalid_parameter("warped kriging needs at least 2 Monte Carlo samples"));
        }
        for i in 0..quantiles.len()
            invariant
                n_samples >= 2,
                forall|j: int|
                    0 <= j < i ==> num(0).le(#[trigger] quantiles@[j]) && quantiles@[j].le(
                        num(ONE),
                    ),
        {
            if !(Double::zero().le(quantiles[i]) && quantiles[i].le(num(ONE))) {
                assert(!quantiles_ok(quantiles@)) by {
                    assert(!(num(0).le(quantiles@[i as int]) && quantiles@[i as int].le(num(ONE))));
                }
                return Err(invalid_parameter("quantiles must lie in [0, 1]"));
            }
        }
        let kriging: Kriging<D, G> = match Kriging::new(
            &self.latent,
            self.model,
            self.config,
            ar,
        ) {
            Err(e) => {
                return Err(e);
            },
            Ok(k) => k,
        };
        let est: Result<KrigingEstimate, GeostatError> = kriging.predict(target, ar);
        assert(kriging.answers(*ar, target, est));
        match est {
            Err(e) => {
                let r: Result<WarpedEstimate, GeostatError> = Err(e);
                assert(self.warps(
                    *ar,
                    kriging,
                    target,
                    quantiles@,
                    n_samples as nat,
                    seed,
                    r,
                ));
                r
            },
            Ok(e) => {
                let w: WarpedEstimate = self.draw(e, quantiles, n_samples, seed, ar);
                let r: Result<WarpedEstimate, GeostatError> = Ok(w);
                assert(self.warps(
                    *ar,
                    kriging,
                    target,
                    quantiles@,
                    n_samples as nat,
                    seed,
                    r,
                ));
                r
            },
        }
    }

    fn draw<F: Fn(Op, Double, Double) -> Double>(
        &self,
        e: KrigingEstimate,
        quantiles: &Vec<Double>,
        n_samples: usize,
        seed: u64,
        ar: &Arithmetic<F>,
    ) -> (w: WarpedEstimate) where T: MarginalTransport<F>,

        requires
            ar.total(),
            lively(Words::seeded(seed)),
            2 <= n_samples < 2 * HIDDEN,
        ensures
            self.draws(*ar, e, quantiles@, n_samples as nat, seed, w),
    {
        let sd: Double = ar.sqrt(e.variance.max(Double::zero()));
        let mut rng: Rng = Rng::new(seed);
        let zs: Vec<Double> = rng.normals(n_samples, ar);
        assert(draws_normals(*ar, Words::seeded(seed), None, zs@, rng.words(), rng.spare()));
        let ghost want = mapped_draws(*ar, self.marginal, e, zs@);
        let mut draws: Vec<Double> = Vec::new();
        for i in 0..zs.len()
            invariant
                ar.total(),
                sd == ar.sqrt(e.variance.max(num(0))),
                want == mapped_draws(*ar, self.marginal, e, zs@),
                draws@ =~= want.take(i as int),
        {
            draws.push(self.marginal.to_data(ar.plus(e.value, ar.times(sd, zs[i])), ar));
        }
        assert(draws@ =~= want);
        summarize(&draws, quantiles, ar)
    }
}

/// Seed of cell `i`.
pub open spec fn cell_seed(seed: u64, i: usize) -> u64 {
    seed ^ (i as u64).wrapping_mul(SEED_STRIDE)
}

/// Means of estimates.
pub open spec fn means_of(es: Seq<WarpedEstimate>) -> Seq<Double> {
    Seq::new(es.len(), |i: int| es[i].mean)
}

/// Standard deviations of estimates.
pub open spec fn stds_of(es: Seq<WarpedEstimate>) -> Seq<Double> {
    Seq::new(es.len(), |i: int| es[i].std)
}

impl<'a, T, G: Fn([Double; 2]) -> Double> TransportKriging<'a, T, 2, G> {
    /// `r` is the prediction at cell `i`, without quantiles.
    pub open spec fn cell_predicted<F: Fn(Op, Double, Double) -> Double>(
        &self,
        ar: Arithmetic<F>,
        center: [Double; 2],
        n_samples: usize,
        seed: u64,
        i: usize,
        r: Result<WarpedEstimate, GeostatError>,
    ) -> bool where T: MarginalTransport<F> {
        self.predicted(ar, center, Seq::empty(), n_samples, cell_seed(seed, i), r)
    }

    /// What prediction over a grid gives.
    pub open spec fn grid_predicted<F: Fn(Op, Double, Double) -> Double>(
        &self,
        ar: Arithmetic<F>,
        grid: Grid2D,
        n_samples: usize,
        seed: u64,
        r: Result<(Vec<Double>, Vec<Double>), GeostatError>,
    ) -> bool where T: MarginalTransport<F> {
        exists|centers: Seq<[Double; 2]>| #[trigger]
            grid.are_centers(ar, centers) && match r {
                Ok(out) => exists|es: Seq<WarpedEstimate>| #[trigger]
                    self.cells_predicted(ar, centers, n_samples, seed, es) && out.0@ == means_of(es)
                        && out.1@ == stds_of(es),
                Err(e) => exists|i: usize|
                    i < centers.len() && #[trigger] self.cell_predicted(
                        ar,
                        centers[i as int],
                        n_samples,
                        seed,
                        i,
                        Err(e),
                    ),
            }
    }

    /// `es` are the predictions at the cells.
    pub open spec fn cells_predicted<F: Fn(Op, Double, Double) -> Double>(
        &self,
        ar: Arithmetic<F>,
        centers: Seq<[Double; 2]>,
        n_samples: usize,
        seed: u64,
        es: Seq<WarpedEstimate>,
    ) -> bool where T: MarginalTransport<F> {
        &&& es.len() == centers.len()
        &&& forall|i: usize|
            i < es.len() ==> #[trigger] self.cell_predicted(
                ar,
                centers[i as int],
                n_samples,
                seed,
                i,
                Ok(es[i as int]),
            )
    }

    fn predict_cell<F: Fn(Op, Double, Double) -> Double>(
        &self,
        center: [Double; 2],
        n_samples: usize,
        seed: u64,
        i: usize,
        ar: &Arithmetic<F>,
    ) -> (r: Result<WarpedEstimate, GeostatError>) where T: MarginalTransport<F>,

        requires
            self.ready(ar),
            lively(Words::seeded(cell_seed(seed, i))),
            n_samples < 2 * HIDDEN,
        ensures
            self.cell_predicted(*ar, center, n_samples, seed, i, r),
    {
        let none: Vec<Double> = Vec::new();
        assert(none@ =~= Seq::<Double>::empty());
        self.predict(center, &none, n_samples, seed ^ (i as u64).wrapping_mul(SEED_STRIDE), ar)
    }

    /// Warped-kriging mean and standard deviation over all cell centers, in grid
    /// storage order. Every cell has its own seed.
    pub fn predict_grid<F: Fn(Op, Double, Double) -> Double + Sync>(
        &self,
        grid: &Grid2D,
        n_samples: usize,
        seed: u64,
        ar: &Arithmetic<F>,
    ) -> (r: Result<(Vec<Double>, Vec<Double>), GeostatError>) where
        T: MarginalTransport<F> + Sync,
        G: Sync,

        requires
            self.ready(ar),
            grid.listable(),
            forall|i: usize| lively(Words::seeded(#[trigger] cell_seed(seed, i))),
            n_samples < 2 * HIDDEN,
        ensures
            self.grid_predicted(*ar, *grid, n_samples, seed, r),
    {
        let centers: Vec<[Double; 2]> = grid.centers(ar);
        let cs: &Vec<[Double; 2]> = &centers;
        let one = |i: usize| -> (r: Result<WarpedEstimate, GeostatError>)
            requires
                i < cs.len(),
                self.ready(ar),
                lively(Words::seeded(cell_seed(seed, i))),
                n_samples < 2 * HIDDEN,
            ensures
                self.cell_predicted(*ar, cs@[i as int], n_samples, seed, i, r),
            { self.predict_cell(cs[i], n_samples, seed, i, ar) };
        let found: Result<Vec<WarpedEstimate>, GeostatError> = par_try_map(centers.len(), one);
        assert(grid.are_centers(*ar, centers@));
        match found {
            Err(e) => {
                proof {
                    let i = choose|i: usize|
                        i < centers@.len() && #[trigger] call_ensures(one, (i,), Err(e));
                    assert(self.cell_predicted(
                        *ar,
                        centers@[i as int],
                        n_samples,
                        seed,
                        i,
                        Err(e),
                    ));
                }
                Err(e)
            },
            Ok(es) => {
                proof {
                    assert forall|i: usize| i < es@.len() implies #[trigger] self.cell_predicted(
                        *ar,
                        centers@[i as int],
                        n_samples,
                        seed,
                        i,
                        Ok(es@[i as int]),
                    ) by {
                        assert(call_ensures(one, ((i as int) as usize,), Ok(es@[i as int])));
                    }
                    assert(self.cells_predicted(*ar, centers@, n_samples, seed, es@));
                }
                let mut means: Vec<Double> = Vec::new();
                let mut stds: Vec<Double> = Vec::new();
                for i in 0..es.len()
                    invariant
                        means@ =~= means_of(es@).take(i as int),
                        stds@ =~= stds_of(es@).take(i as int),
                {
                    means.push(es[i].mean);
                    stds.push(es[i].std);
                }
                assert(means@ =~= means_of(es@));
                assert(stds@ =~= stds_of(es@));
                Ok((means, stds))
            },
        }
    }
}

} // verus!

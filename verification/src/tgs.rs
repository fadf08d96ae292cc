//! Truncated Gaussian simulation of ordered categories: one Gaussian field is
//! simulated and cut at thresholds that come from the category proportions.
//! Hard categories condition the field by the middle of their probability
//! interval.

use vstd::prelude::*;

use crate::arith::{num, Arithmetic, Op, HALF};
use crate::covariance::Covariance;
use crate::data::{all_points_finite, bbox_of, finite_points, highest, lowest};
use crate::double::{Double, HIDDEN, ONE};
use crate::error::{
    insufficient, invalid, invalid_double, invalid_of, invalid_parameter, mismatch, mismatched,
    too_little, GeostatError, Message,
};
use crate::gaussian::{
    field_excludes_failure, field_fails, field_is_unique, is_field, playable,
    simulate_gaussian_path,
};
use crate::grid::{Grid2D, Grid3D};
use crate::kriging::copy_values;
use crate::model::{check_gaussian, gaussian_ok, gaussian_refused};
use crate::parallel::par_try_map;
use crate::rng::{lively, realization_seed, stream_seed};
use crate::sgs::level_values;
use crate::simulation::{
    level_list, levels_are_unique_2d, levels_are_unique_3d, levels_for_2d, levels_for_3d,
    multigrid_2d, multigrid_3d,
};
use crate::stage::{after_path, can_lay_out, same_stage, systems_fit, Stage};
use crate::text::{concat5, counts_text, decimal, digits};
use crate::transform::{ascends, count_below, inv_norm_cdf, normal_quantile, unit_weights};
use crate::walk::Quotas;

verus! {

/// Bit pattern of how far proportions may be from summing to one.
pub const SUM_TOLERANCE: u64 = 0x3EB0_C6F7_A0B5_ED8D;

/// Hard categorical observations: categories are ordered, counted from zero.
#[derive(Debug)]
pub struct CategoricalData<const D: usize> {
    coords: Vec<[Double; D]>,
    categories: Vec<usize>,
    n_categories: usize,
}

/// Category `i` is the first out of range.
pub open spec fn first_out_of_range(categories: Seq<usize>, n: nat, i: int) -> bool {
    &&& 0 <= i < categories.len()
    &&& categories[i] >= n
    &&& all_in_range(categories.take(i), n)
}

/// All categories are below `n`.
pub open spec fn all_in_range(categories: Seq<usize>, n: nat) -> bool {
    forall|i: int| 0 <= i < categories.len() ==> (#[trigger] categories[i]) < n
}

/// Text on a category out of range.
pub open spec fn range_text(c: nat, n: nat) -> Seq<char> {
    "category "@ + digits(c) + " out of range (0.."@ + digits(n) + ")"@
}

fn out_of_range(c: usize, n: usize) -> (e: GeostatError)
    ensures
        invalid(e, range_text(c as nat, n as nat)),
{
    GeostatError::InvalidParameter(
        Message::owned(
            concat5(
                "category ",
                decimal(c).as_str(),
                " out of range (0..",
                decimal(n).as_str(),
                ")",
            ),
        ),
    )
}

fn find_out_of_range(categories: &Vec<usize>, n: usize) -> (r: Option<usize>)
    ensures
        r is None <==> all_in_range(categories@, n as nat),
        r matches Some(i) ==> first_out_of_range(categories@, n as nat, i as int),
{
    for i in 0..categories.len()
        invariant
            forall|j: int| 0 <= j < i ==> (#[trigger] categories@[j]) < n,
    {
        if categories[i] >= n {
            assert(all_in_range(categories@.take(i as int), n as nat));
            return Some(i);
        }
    }
    None
}

/// The number of categories: the one given, or one more than the largest.
pub open spec fn category_count(given: Option<usize>, categories: Seq<usize>, n: nat) -> bool {
    match given {
        Some(k) => n == k,
        None => all_in_range(categories, n) && (if categories.len() == 0 {
            n == 0
        } else {
            n > 0 && categories.contains((n - 1) as usize)
        }),
    }
}

impl<const D: usize> CategoricalData<D> {
    /// Coordinates.
    pub closed spec fn places(&self) -> Seq<[Double; D]> {
        self.coords@
    }

    /// Category labels.
    pub closed spec fn labels(&self) -> Seq<usize> {
        self.categories@
    }

    /// Number of categories.
    pub closed spec fn classes(&self) -> nat {
        self.n_categories as nat
    }

    /// At least one point and two categories, finite coordinates, one category
    /// per point, and none out of range.
    pub open spec fn well_formed(&self) -> bool {
        &&& self.places().len() > 0
        &&& self.places().len() == self.labels().len()
        &&& finite_points(self.places())
        &&& all_in_range(self.labels(), self.classes())
        &&& self.classes() >= 2
        &&& self.classes() <= usize::MAX
    }

    /// Builds a categorical data set. Without `n_categories` there is one more
    /// category than the largest label.
    pub fn new(
        coords: Vec<[Double; D]>,
        categories: Vec<usize>,
        n_categories: Option<usize>,
    ) -> (r: Result<Self, GeostatError>)
        requires
            n_categories is None ==> forall|i: int|
                0 <= i < categories.len() ==> (#[trigger] categories@[i]) < usize::MAX,
        ensures
            match r {
                Ok(d) => d.well_formed() && d.places() == coords@ && d.labels() == categories@
                    && category_count(n_categories, categories@, d.classes()),
                Err(e) => if coords.len() == 0 {
                    insufficient(e, "no points provided"@)
                } else if coords.len() != categories.len() {
                    mismatch(
                        e,
                        digits(coords@.len()) + " coordinates vs "@ + digits(categories@.len())
                            + " categories"@,
                    )
                } else if !finite_points(coords@) {
                    invalid(e, "non-finite coordinate"@)
                } else {
                    exists|n: nat| #[trigger]
                        category_count(n_categories, categories@, n) && if !all_in_range(
                            categories@,
                            n,
                        ) {
                            exists|i: int| #[trigger]
                                first_out_of_range(categories@, n, i) && invalid(
                                    e,
                                    range_text(categories@[i] as nat, n),
                                )
                        } else {
                            n < 2 && invalid(e, "at least 2 categories required"@)
                        }
                },
            },
    {
        if coords.len() == 0 {
            return Err(too_little("no points provided"));
        }
        if coords.len() != categories.len() {
            return Err(
                mismatched(
                    counts_text(
                        coords.len(),
                        " coordinates vs ",
                        categories.len(),
                        " categories",
                    ),
                ),
            );
        }
        if !all_points_finite(&coords) {
            return Err(invalid_parameter("non-finite coordinate"));
        }
        let n: usize = match n_categories {
            Some(k) => k,
            None => {
                let mut top: usize = categories[0];
                assert(categories@[0] == top);
                for i in 1..categories.len()
                    invariant
                        categories.len() > 0,
                        forall|j: int|
                            0 <= j < categories.len() ==> (#[trigger] categories@[j]) < usize::MAX,
                        top < usize::MAX,
                        categories@.contains(top),
                        forall|j: int| 0 <= j < i ==> (#[trigger] categories@[j]) <= top,
                {
                    if categories[i] > top {
                        top = categories[i];
                        assert(categories@[i as int] == top);
                    }
                }
                top + 1
            },
        };
        assert(category_count(n_categories, categories@, n as nat));
        if let Some(i) = find_out_of_range(&categories, n) {
            assert(first_out_of_range(categories@, n as nat, i as int));
            return Err(out_of_range(categories[i], n));
        }
        if n < 2 {
            return Err(invalid_parameter("at least 2 categories required"));
        }
        Ok(CategoricalData { coords, categories, n_categories: n })
    }

    /// All coordinates.
    pub fn coords(&self) -> (c: &Vec<[Double; D]>)
        ensures
            c@ == self.places(),
    {
        &self.coords
    }

    /// All category labels.
    pub fn categories(&self) -> (c: &Vec<usize>)
        ensures
            c@ == self.labels(),
    {
        &self.categories
    }

    /// Number of ordered categories.
    pub fn n_categories(&self) -> (n: usize)
        ensures
            n == self.classes(),
    {
        self.n_categories
    }

    /// Number of points.
    pub fn len(&self) -> (n: usize)
        ensures
            n == self.places().len(),
    {
        self.coords.len()
    }

    /// Whether the set is empty (never true for a constructed value).
    pub fn is_empty(&self) -> (b: bool)
        ensures
            b == (self.places().len() == 0),
            self.well_formed() ==> !b,
    {
        self.coords.len() == 0
    }

    /// Axis-aligned bounding box as `(min, max)` corners.
    pub fn bbox(&self) -> (corners: ([Double; D], [Double; D]))
        requires
            self.well_formed(),
        ensures
            forall|d: int|
                0 <= d < D ==> lowest(#[trigger] corners.0@[d], self.places(), d),
            forall|d: int|
                0 <= d < D ==> highest(#[trigger] corners.1@[d], self.places(), d),
    {
        bbox_of(&self.coords)
    }
}

/// Configuration for truncated Gaussian simulation.
#[derive(Debug)]
#[non_exhaustive]
pub struct TgsConfig {
    /// Number of realizations to generate.
    pub n_realizations: usize,
    /// Base seed; realization `r` uses a stream derived from `(seed, r)`.
    pub seed: u64,
    /// Maximum number of conditioning points per node.
    pub max_neighbors: usize,
    /// Optional search radius for conditioning points.
    pub search_radius: Option<Double>,
    /// Global category proportions, one per category, summing to one. Empty
    /// (default) estimates them from the hard data.
    pub proportions: Vec<Double>,
    /// Optional declustering weights for the estimated proportions; ignored
    /// where proportions are given.
    pub decluster_weights: Option<Vec<Double>>,
    /// Separate quota for previously simulated nodes.
    pub max_node_neighbors: Option<usize>,
    /// Multiple-grid levels (grid entry points only).
    pub multigrid: u8,
}

impl Default for TgsConfig {
    fn default() -> (c: TgsConfig)
        ensures
            c.n_realizations == 1,
            c.seed == 42,
            c.max_neighbors == 16,
            c.search_radius is None,
            c.proportions@.len() == 0,
            c.decluster_weights is None,
            c.max_node_neighbors is None,
            c.multigrid == 0,
    {
        TgsConfig {
            n_realizations: 1,
            seed: 42,
            max_neighbors: 16,
            search_radius: None,
            proportions: Vec::new(),
            decluster_weights: None,
            max_node_neighbors: None,
            multigrid: 0,
        }
    }
}

impl TgsConfig {
    /// Search limits.
    pub open spec fn quotas(self) -> Quotas {
        Quotas {
            max_neighbors: self.max_neighbors,
            max_node_neighbors: self.max_node_neighbors,
            radius: self.search_radius,
        }
    }
}

/// Result of a run on a 2-D grid: realizations in grid storage order, one
/// category per cell.
#[derive(Debug)]
pub struct TgsResult {
    /// The simulation grid.
    pub grid: Grid2D,
    /// One vector of `grid.n_cells()` categories per realization.
    pub realizations: Vec<Vec<usize>>,
}

/// Sum of the weights of the members of category `c`.
pub open spec fn weight_in<F: Fn(Op, Double, Double) -> Double>(
    ar: Arithmetic<F>,
    categories: Seq<usize>,
    weights: Seq<Double>,
    c: int,
) -> Double
    decreases categories.len(),
{
    if categories.len() == 0 {
        num(0)
    } else {
        let before = weight_in(ar, categories.drop_last(), weights.drop_last(), c);
        if categories.last() == c {
            ar.plus(before, weights.last())
        } else {
            before
        }
    }
}

/// Proportions of the categories: by weight where there are weights, by count
/// otherwise.
pub open spec fn proportions_of<F: Fn(Op, Double, Double) -> Double>(
    ar: Arithmetic<F>,
    categories: Seq<usize>,
    n: nat,
    weights: Option<Seq<Double>>,
) -> Seq<Double> {
    Seq::new(
        n,
        |c: int|
            match weights {
                Some(w) => ar.over(weight_in(ar, categories, w, c), ar.total_of(w)),
                None => ar.over(
                    weight_in(ar, categories, unit_weights(categories.len()), c),
                    Double::count(categories.len()),
                ),
            },
    )
}

/// The weights, where there are any, can be used.
pub open spec fn category_weights_ok<F: Fn(Op, Double, Double) -> Double>(
    ar: Arithmetic<F>,
    weights: Option<Seq<Double>>,
    n: nat,
) -> bool {
    weights matches Some(w) ==> w.len() == n && ar.total_of(w).is_positive()
}

/// Why they cannot.
pub open spec fn category_weights_refused(
    weights: Option<Seq<Double>>,
    n: nat,
    e: GeostatError,
) -> bool {
    let w = weights->0;
    if w.len() != n {
        mismatch(e, digits(w.len()) + " weights vs "@ + digits(n) + " categories"@)
    } else {
        invalid(e, "declustering weights must sum to a positive value"@)
    }
}

/// The list behind a reference, where there is one.
pub open spec fn list_of(weights: Option<&Vec<Double>>) -> Option<Seq<Double>> {
    match weights {
        Some(w) => Some(w@),
        None => None,
    }
}

/// Adds up the weights of the members of each category.
fn add_by_category<F: Fn(Op, Double, Double) -> Double>(
    categories: &Vec<usize>,
    n: usize,
    weights: &Vec<Double>,
    ar: &Arithmetic<F>,
) -> (
props: Vec<Double>)
    requires
        ar.total(),
        all_in_range(categories@, n as nat),
        weights.len() == categories.len(),
    ensures
        props.len() == n,
        forall|c: int|
            0 <= c < n ==> #[trigger] props@[c] == weight_in(*ar, categories@, weights@, c),
{
    let mut props: Vec<Double> = Vec::new();
    for c in 0..n
        invariant
            props.len() == c,
            forall|k: int| 0 <= k < c ==> #[trigger] props@[k] == num(0),
    {
        props.push(Double::zero());
    }
    for i in 0..categories.len()
        invariant
            ar.total(),
            all_in_range(categories@, n as nat),
            weights.len() == categories.len(),
            props.len() == n,
            forall|k: int|
                0 <= k < n ==> #[trigger] props@[k] == weight_in(
                    *ar,
                    categories@.take(i as int),
                    weights@.take(i as int),
                    k,
                ),
    {
        assert(categories@.take(i + 1).drop_last() =~= categories@.take(i as int));
        assert(weights@.take(i + 1).drop_last() =~= weights@.take(i as int));
        let c: usize = categories[i];
        assert(categories@[i as int] < n);
        let more: Double = ar.plus(props[c], weights[i]);
        props.set(c, more);
    }
    assert(categories@.take(categories.len() as int) =~= categories@);
    assert(weights@.take(categories.len() as int) =~= weights@);
    props
}

/// Global category proportions from the frequency of hard data, optionally
/// weighted by declustering weights.
pub fn category_proportions<F: Fn(Op, Double, Double) -> Double>(
    categories: &Vec<usize>,
    n_categories: usize,
    weights: Option<&Vec<Double>>,
    ar: &Arithmetic<F>,
) -> (r: Result<Vec<Double>, GeostatError>)
    requires
        ar.total(),
        all_in_range(categories@, n_categories as nat),
        categories.len() < 2 * HIDDEN,
    ensures
        match r {
            Ok(p) => {
                &&& category_weights_ok(*ar, list_of(weights), categories@.len())
                &&& p@ == proportions_of(
                    *ar,
                    categories@,
                    n_categories as nat,
                    list_of(weights),
                )
            },
            Err(e) => {
                &&& !category_weights_ok(*ar, list_of(weights), categories@.len())
                &&& category_weights_refused(list_of(weights), categories@.len(), e)
            },
        },
{
    let ghost list = list_of(weights);
    let (sums, divisor): (Vec<Double>, Double) = match weights {
        Some(w) => {
            if w.len() != categories.len() {
                return Err(
                    mismatched(
                        counts_text(w.len(), " weights vs ", categories.len(), " categories"),
                    ),
                );
            }
            let wsum: Double = ar.add_up(w);
            if !wsum.is_positive() {
                return Err(invalid_parameter("declustering weights must sum to a positive value"));
            }
            (add_by_category(categories, n_categories, w, ar), wsum)
        },
        None => {
            let mut ones: Vec<Double> = Vec::new();
            for i in 0..categories.len()
                invariant
                    ones@ =~= unit_weights(i as nat),
            {
                ones.push(num(ONE));
            }
            (
                add_by_category(categories, n_categories, &ones, ar),
                Double::from_count(categories.len()),
            )
        },
    };
    let mut props: Vec<Double> = Vec::new();
    let ghost want = proportions_of(*ar, categories@, n_categories as nat, list);
    for c in 0..n_categories
        invariant
            ar.total(),
            sums.len() == n_categories,
            want.len() == n_categories,
            forall|k: int|
                0 <= k < n_categories ==> want[k] == ar.over(#[trigger] sums@[k], divisor),
            props@ =~= want.take(c as int),
    {
        props.push(ar.over(sums[c], divisor));
    }
    assert(props@ =~= want);
    Ok(props)
}

/// Every proportion is positive.
pub open spec fn all_positive(props: Seq<Double>) -> bool {
    forall|i: int| 0 <= i < props.len() ==> (#[trigger] props[i]).is_positive()
}

/// The proportions sum to one, as near as it goes.
pub open spec fn sums_to_one<F: Fn(Op, Double, Double) -> Double>(
    ar: Arithmetic<F>,
    props: Seq<Double>,
) -> bool {
    !num(SUM_TOLERANCE).lt(ar.minus(ar.total_of(props), num(ONE)).abs())
}

/// The proportions make thresholds.
pub open spec fn thresholds_ok<F: Fn(Op, Double, Double) -> Double>(
    ar: Arithmetic<F>,
    props: Seq<Double>,
) -> bool {
    props.len() >= 2 && all_positive(props) && sums_to_one(ar, props)
}

/// Why they do not: the first check that fails.
pub open spec fn thresholds_refused<F: Fn(Op, Double, Double) -> Double>(
    ar: Arithmetic<F>,
    props: Seq<Double>,
    e: GeostatError,
) -> bool {
    if props.len() < 2 {
        invalid(e, "at least 2 categories required"@)
    } else if !all_positive(props) {
        invalid(e, "category proportions must be positive"@)
    } else {
        invalid_of(e, "proportions must sum to 1 (got {})"@, seq![ar.total_of(props)])
    }
}

/// Thresholds: quantiles of the cumulative proportions.
pub open spec fn thresholds_of<F: Fn(Op, Double, Double) -> Double>(
    ar: Arithmetic<F>,
    props: Seq<Double>,
) -> Seq<Double> {
    Seq::new(
        (props.len() - 1) as nat,
        |i: int| normal_quantile(ar, ar.accumulated(props.take(i + 1))),
    )
}

/// Thresholds that cut a standard normal field into ordered categories with
/// the given global proportions: category `k` lies above threshold `k - 1` and
/// at or below threshold `k`.
pub fn tgs_thresholds<F: Fn(Op, Double, Double) -> Double>(
    proportions: &Vec<Double>,
    ar: &Arithmetic<F>,
) -> (r: Result<
    Vec<Double>,
    GeostatError,
>)
    requires
        ar.total(),
    ensures
        match r {
            Ok(th) => thresholds_ok(*ar, proportions@) && th@ == thresholds_of(*ar, proportions@),
            Err(e) => !thresholds_ok(*ar, proportions@) && thresholds_refused(
                *ar,
                proportions@,
                e,
            ),
        },
{
    let k: usize = proportions.len();
    if k < 2 {
        return Err(invalid_parameter("at least 2 categories required"));
    }
    for i in 0..k
        invariant
            k == proportions.len(),
            k >= 2,
            forall|j: int| 0 <= j < i ==> (#[trigger] proportions@[j]).is_positive(),
    {
        if !proportions[i].is_positive() {
            assert(!proportions@[i as int].is_positive());
            return Err(invalid_parameter("category proportions must be positive"));
        }
    }
    let sum: Double = ar.add_up(proportions);
    if num(SUM_TOLERANCE).lt(ar.minus(sum, num(ONE)).abs()) {
        return Err(invalid_double("proportions must sum to 1 (got {})", sum));
    }
    let mut th: Vec<Double> = Vec::new();
    let mut cum: Double = Double::zero();
    for i in 0..k - 1
        invariant
            ar.total(),
            k == proportions.len(),
            k >= 2,
            cum == ar.accumulated(proportions@.take(i as int)),
            th@ =~= thresholds_of(*ar, proportions@).take(i as int),
    {
        assert(proportions@.take(i + 1).drop_last() =~= proportions@.take(i as int));
        cum = ar.plus(cum, proportions[i]);
        th.push(inv_norm_cdf(cum, ar));
    }
    assert(th@ =~= thresholds_of(*ar, proportions@));
    Ok(th)
}

/// Middle of the probability interval of category `c`, as a normal quantile.
pub open spec fn pseudo_of<F: Fn(Op, Double, Double) -> Double>(
    ar: Arithmetic<F>,
    props: Seq<Double>,
    c: int,
) -> Double {
    normal_quantile(
        ar,
        ar.times(
            num(HALF),
            ar.plus(ar.accumulated(props.take(c)), ar.accumulated(props.take(c + 1))),
        ),
    )
}

/// Conditioning values of categories.
pub open spec fn pseudo_values<F: Fn(Op, Double, Double) -> Double>(
    ar: Arithmetic<F>,
    categories: Seq<usize>,
    props: Seq<Double>,
) -> Seq<Double> {
    Seq::new(categories.len(), |i: int| pseudo_of(ar, props, categories[i] as int))
}

/// Converts categories into conditioning values of the field: the quantile of
/// the middle of their probability interval.
pub fn category_to_pseudo_gaussian<F: Fn(Op, Double, Double) -> Double>(
    categories: &Vec<usize>,
    proportions: &Vec<Double>,
    ar: &Arithmetic<F>,
) -> (r: Result<Vec<Double>, GeostatError>)
    requires
        ar.total(),
    ensures
        match r {
            Ok(v) => all_in_range(categories@, proportions@.len()) && v@ == pseudo_values(
                *ar,
                categories@,
                proportions@,
            ),
            Err(e) => exists|i: int| #[trigger]
                first_out_of_range(categories@, proportions@.len(), i) && invalid(
                    e,
                    range_text(categories@[i] as nat, proportions@.len()),
                ),
        },
{
    let k: usize = proportions.len();
    let mut cum: Vec<Double> = Vec::new();
    cum.push(Double::zero());
    assert(proportions@.take(0) =~= Seq::<Double>::empty());
    for i in 0..k
        invariant
            ar.total(),
            k == proportions.len(),
            cum.len() == i + 1,
            forall|j: int| 0 <= j <= i ==> #[trigger] cum@[j] == ar.accumulated(proportions@.take(j)),
    {
        assert(proportions@.take(i + 1).drop_last() =~= proportions@.take(i as int));
        let next: Double = ar.plus(cum[i], proportions[i]);
        cum.push(next);
    }
    let mut out: Vec<Double> = Vec::new();
    for i in 0..categories.len()
        invariant
            ar.total(),
            k == proportions.len(),
            cum.len() == k + 1,
            forall|j: int| 0 <= j <= k ==> #[trigger] cum@[j] == ar.accumulated(proportions@.take(j)),
            forall|j: int| 0 <= j < i ==> (#[trigger] categories@[j]) < k,
            out@ =~= pseudo_values(*ar, categories@, proportions@).take(i as int),
    {
        let c: usize = categories[i];
        if c >= k {
            assert(all_in_range(categories@.take(i as int), k as nat));
            assert(first_out_of_range(categories@, k as nat, i as int));
            return Err(out_of_range(c, k));
        }
        out.push(inv_norm_cdf(ar.times(num(HALF), ar.plus(cum[c], cum[c + 1])), ar));
    }
    assert(out@ =~= pseudo_values(*ar, categories@, proportions@));
    Ok(out)
}

impl TgsConfig {
    /// The proportions of a run: those given, or those of the data.
    pub open spec fn proportions_for<const D: usize, F: Fn(Op, Double, Double) -> Double>(
        &self,
        ar: Arithmetic<F>,
        data: &CategoricalData<D>,
    ) -> Seq<Double> {
        if self.proportions@.len() == 0 {
            proportions_of(
                ar,
                data.labels(),
                data.classes(),
                crate::ccdf::weight_list(self.decluster_weights),
            )
        } else {
            self.proportions@
        }
    }

    /// The proportions of a run are there.
    pub open spec fn proportions_ok<const D: usize, F: Fn(Op, Double, Double) -> Double>(
        &self,
        ar: Arithmetic<F>,
        data: &CategoricalData<D>,
    ) -> bool {
        if self.proportions@.len() == 0 {
            category_weights_ok(
                ar,
                crate::ccdf::weight_list(self.decluster_weights),
                data.labels().len(),
            )
        } else {
            self.proportions@.len() == data.classes()
        }
    }

    /// Why they are not.
    pub open spec fn proportions_refused<const D: usize>(
        &self,
        data: &CategoricalData<D>,
        e: GeostatError,
    ) -> bool {
        if self.proportions@.len() == 0 {
            category_weights_refused(
                crate::ccdf::weight_list(self.decluster_weights),
                data.labels().len(),
                e,
            )
        } else {
            mismatch(
                e,
                digits(self.proportions@.len()) + " proportions vs "@ + digits(data.classes())
                    + " categories"@,
            )
        }
    }

    fn find_proportions<const D: usize, F: Fn(Op, Double, Double) -> Double>(
        &self,
        data: &CategoricalData<D>,
        ar: &Arithmetic<F>,
    ) -> (r: Result<Vec<Double>, GeostatError>)
        requires
            data.well_formed(),
            data.labels().len() < 2 * HIDDEN,
            ar.total(),
        ensures
            match r {
                Ok(p) => self.proportions_ok(*ar, data) && p@ == self.proportions_for(*ar, data),
                Err(e) => !self.proportions_ok(*ar, data) && self.proportions_refused(data, e),
            },
    {
        if self.proportions.len() == 0 {
            let weights: Option<&Vec<Double>> = match &self.decluster_weights {
                Some(w) => Some(w),
                None => None,
            };
            category_proportions(data.categories(), data.n_categories(), weights, ar)
        } else {
            if self.proportions.len() != data.n_categories() {
                return Err(
                    mismatched(
                        counts_text(
                            self.proportions.len(),
                            " proportions vs ",
                            data.n_categories(),
                            " categories",
                        ),
                    ),
                );
            }
            Ok(copy_values(&self.proportions))
        }
    }
}

/// A simulation can be run.
pub open spec fn tgs_ok<const D: usize, F: Fn(Op, Double, Double) -> Double, G: Fn([Double; D]) -> Double>(
    ar: Arithmetic<F>,
    data: &CategoricalData<D>,
    model: &Covariance<D, G>,
    n: nat,
    cfg: &TgsConfig,
) -> bool {
    &&& gaussian_ok(model.traits, cfg.n_realizations, cfg.max_neighbors, cfg.search_radius, n)
    &&& cfg.proportions_ok(ar, data)
    &&& thresholds_ok(ar, cfg.proportions_for(ar, data))
}

/// Why it cannot: the first check that fails.
pub open spec fn tgs_refused<const D: usize, F: Fn(Op, Double, Double) -> Double, G: Fn([Double; D]) -> Double>(
    ar: Arithmetic<F>,
    data: &CategoricalData<D>,
    model: &Covariance<D, G>,
    n: nat,
    cfg: &TgsConfig,
    e: GeostatError,
) -> bool {
    if !gaussian_ok(
        model.traits,
        cfg.n_realizations,
        cfg.max_neighbors,
        cfg.search_radius,
        n,
    ) {
        gaussian_refused(
            "TGS needs a valid covariance function and cannot use the unbounded Power model"@,
            model.traits,
            D as nat,
            cfg.n_realizations,
            cfg.max_neighbors,
            cfg.search_radius,
            e,
        )
    } else if !cfg.proportions_ok(ar, data) {
        cfg.proportions_refused(data, e)
    } else {
        thresholds_refused(ar, cfg.proportions_for(ar, data), e)
    }
}

/// One realization: the Gaussian field of its seed, cut at the thresholds.
pub open spec fn is_cut_field<const D: usize, F: Fn(Op, Double, Double) -> Double, G: Fn([Double; D]) -> Double>(
    stage: &Stage<D>,
    ar: &Arithmetic<F>,
    model: &Covariance<D, G>,
    levels: Option<Seq<u8>>,
    pseudo: Seq<Double>,
    thresholds: Seq<Double>,
    q: Quotas,
    seed: u64,
    out: Seq<usize>,
) -> bool {
    exists|field: Seq<Double>| #[trigger]
        is_field(stage, ar, model, levels, pseudo, q, seed, field) && all_classified(
            field,
            thresholds,
            out,
        )
}

/// What the realizations are, once the stage is set.
pub open spec fn realized<const D: usize, F: Fn(Op, Double, Double) -> Double, G: Fn([Double; D]) -> Double>(
    stage: &Stage<D>,
    ar: &Arithmetic<F>,
    model: &Covariance<D, G>,
    levels: Option<Seq<u8>>,
    pseudo: Seq<Double>,
    thresholds: Seq<Double>,
    cfg: &TgsConfig,
    r: Result<Vec<Vec<usize>>, GeostatError>,
) -> bool {
    match r {
        Ok(v) => v@.len() == cfg.n_realizations && forall|i: int|
            0 <= i < v@.len() ==> is_cut_field(
                stage,
                ar,
                model,
                levels,
                pseudo,
                thresholds,
                cfg.quotas(),
                stream_seed(cfg.seed, i as nat),
                (#[trigger] v@[i])@,
            ),
        Err(e) => exists|i: nat|
            i < cfg.n_realizations && field_fails(
                stage,
                ar,
                model,
                levels,
                pseudo,
                cfg.quotas(),
                #[trigger] stream_seed(cfg.seed, i),
                e,
            ),
    }
}

/// What a simulation gives.
pub open spec fn tgs_outcome<const D: usize, F: Fn(Op, Double, Double) -> Double, G: Fn([Double; D]) -> Double>(
    ar: &Arithmetic<F>,
    data: &CategoricalData<D>,
    model: &Covariance<D, G>,
    nodes: Seq<[Double; D]>,
    levels: Option<Seq<u8>>,
    cfg: &TgsConfig,
    r: Result<Vec<Vec<usize>>, GeostatError>,
) -> bool {
    if !tgs_ok(*ar, data, model, nodes.len(), cfg) {
        r matches Err(e) && tgs_refused(*ar, data, model, nodes.len(), cfg, e)
    } else {
        let props = cfg.proportions_for(*ar, data);
        exists|stage: Stage<D>| #[trigger]
            stage.is_set(*ar, data.places(), nodes) && realized(
                &stage,
                ar,
                model,
                levels,
                pseudo_values(*ar, data.labels(), props),
                thresholds_of(*ar, props),
                cfg,
                r,
            )
    }
}

/// The simulation runs to its end: cells can be laid out, systems held in
/// memory and normals drawn, and the thresholds ascend.
pub open spec fn tgs_runs<const D: usize, F: Fn(Op, Double, Double) -> Double>(
    ar: &Arithmetic<F>,
    data: &CategoricalData<D>,
    nodes: Seq<[Double; D]>,
    cfg: &TgsConfig,
) -> bool {
    &&& can_lay_out(*ar, data.places(), nodes)
    &&& systems_fit(cfg.quotas(), data.places().len(), nodes.len())
    &&& forall|i: nat|
        i < cfg.n_realizations ==> lively(
            after_path(#[trigger] stream_seed(cfg.seed, i), nodes.len()),
        )
    &&& ascends(thresholds_of(*ar, cfg.proportions_for(*ar, data)))
}

/// One realization of a seed.
fn simulate_one<const D: usize, F: Fn(Op, Double, Double) -> Double, G: Fn([Double; D]) -> Double>(
    stage: &Stage<D>,
    model: &Covariance<D, G>,
    levels: Option<&Vec<u8>>,
    pseudo: &Vec<Double>,
    thresholds: &Vec<Double>,
    q: Quotas,
    seed: u64,
    ar: &Arithmetic<F>,
) -> (r: Result<Vec<usize>, GeostatError>)
    requires
        playable(stage, ar, model, levels, pseudo@.len(), q),
        lively(after_path(seed, stage.nodes@.len())),
        ascends(thresholds@),
    ensures
        match r {
            Ok(out) => is_cut_field(
                stage,
                ar,
                model,
                level_list(levels),
                pseudo@,
                thresholds@,
                q,
                seed,
                out@,
            ),
            Err(e) => field_fails(stage, ar, model, level_list(levels), pseudo@, q, seed, e),
        },
{
    match simulate_gaussian_path(stage, model, levels, pseudo, q, seed, ar) {
        Err(e) => Err(e),
        Ok(field) => {
            assert(is_field(stage, ar, model, level_list(levels), pseudo@, q, seed, field@));
            let mut out: Vec<usize> = Vec::new();
            for i in 0..field.len()
                invariant
                    ascends(thresholds@),
                    out.len() == i,
                    forall|j: int|
                        0 <= j < i ==> is_category(
                            field@[j],
                            thresholds@,
                            #[trigger] out@[j] as int,
                        ),
            {
                out.push(tgs_classify(field[i], thresholds));
            }
            assert(all_classified(field@, thresholds@, out@));
            Ok(out)
        },
    }
}

/// Truncated Gaussian simulation at the nodes; `levels` are their multigrid
/// levels, if any.
pub fn tgs_at_with_levels<
    const D: usize,
    F: Fn(Op, Double, Double) -> Double + Sync,
    G: Fn([Double; D]) -> Double + Sync,
>(
    data: &CategoricalData<D>,
    model: &Covariance<D, G>,
    nodes: &Vec<[Double; D]>,
    levels: Option<&Vec<u8>>,
    cfg: &TgsConfig,
    ar: &Arithmetic<F>,
) -> (r: Result<Vec<Vec<usize>>, GeostatError>)
    requires
        data.well_formed(),
        data.labels().len() < 2 * HIDDEN,
        model.total(),
        ar.total(),
        levels matches Some(ls) ==> ls@.len() == nodes@.len(),
        tgs_ok(*ar, data, model, nodes@.len(), cfg) ==> tgs_runs(ar, data, nodes@, cfg),
    ensures
        tgs_outcome(ar, data, model, nodes@, level_list(levels), cfg, r),
{
    match check_gaussian(
        "TGS needs a valid covariance function and cannot use the unbounded Power model",
        &model.traits,
        D,
        cfg.n_realizations,
        cfg.max_neighbors,
        cfg.search_radius,
        nodes.len(),
    ) {
        Err(e) => {
            return Err(e);
        },
        Ok(_) => {},
    }
    let props: Vec<Double> = match cfg.find_proportions(data, ar) {
        Err(e) => {
            return Err(e);
        },
        Ok(p) => p,
    };
    let thresholds: Vec<Double> = match tgs_thresholds(&props, ar) {
        Err(e) => {
            return Err(e);
        },
        Ok(th) => th,
    };
    assert(props@.len() == data.classes());
    let pseudo: Vec<Double> = match category_to_pseudo_gaussian(data.categories(), &props, ar) {
        Err(e) => {
            proof {
                let i = choose|i: int| #[trigger]
                    first_out_of_range(data.labels(), props@.len(), i);
                assert(data.labels()[i] < data.classes());
            }
            return Err(e);
        },
        Ok(v) => v,
    };
    let stage: Stage<D> = Stage::set(data.coords(), nodes, ar);
    let q: Quotas = Quotas {
        max_neighbors: cfg.max_neighbors,
        max_node_neighbors: cfg.max_node_neighbors,
        radius: cfg.search_radius,
    };
    let places: &Stage<D> = &stage;
    let conditioning: &Vec<Double> = &pseudo;
    let cuts: &Vec<Double> = &thresholds;
    let one = |i: usize| -> (out: Result<Vec<usize>, GeostatError>)
        requires
            playable(places, ar, model, levels, conditioning@.len(), q),
            lively(after_path(stream_seed(cfg.seed, i as nat), places.nodes@.len())),
            ascends(cuts@),
        ensures
            match out {
                Ok(v) => is_cut_field(
                    places,
                    ar,
                    model,
                    level_list(levels),
                    conditioning@,
                    cuts@,
                    q,
                    stream_seed(cfg.seed, i as nat),
                    v@,
                ),
                Err(e) => field_fails(
                    places,
                    ar,
                    model,
                    level_list(levels),
                    conditioning@,
                    q,
                    stream_seed(cfg.seed, i as nat),
                    e,
                ),
            },
        {
            simulate_one(
                places,
                model,
                levels,
                conditioning,
                cuts,
                q,
                realization_seed(cfg.seed, i),
                ar,
            )
        };
    proof {
        assert(q == cfg.quotas());
        assert forall|i: usize| i < cfg.n_realizations implies #[trigger] call_requires(one, (i,)) by {
            let seed = stream_seed(cfg.seed, i as nat);
            assert(lively(after_path(seed, places.nodes@.len())));
        }
    }
    let r: Result<Vec<Vec<usize>>, GeostatError> = par_try_map(cfg.n_realizations, one);
    proof {
        if r is Err {
            let e = r->Err_0;
            let i = choose|i: usize|
                i < cfg.n_realizations && #[trigger] call_ensures(one, (i,), Err(e));
            let k = i as nat;
            assert(field_fails(
                places,
                ar,
                model,
                level_list(levels),
                conditioning@,
                q,
                stream_seed(cfg.seed, k),
                e,
            ));
        }
        assert(realized(
            places,
            ar,
            model,
            level_list(levels),
            conditioning@,
            cuts@,
            cfg,
            r,
        ));
        assert(stage.is_set(*ar, data.places(), nodes@));
    }
    r
}

/// Truncated Gaussian simulation at an arbitrary set of nodes. `multigrid` is
/// ignored here (it needs grid topology).
pub fn tgs_at<
    const D: usize,
    F: Fn(Op, Double, Double) -> Double + Sync,
    G: Fn([Double; D]) -> Double + Sync,
>(
    data: &CategoricalData<D>,
    model: &Covariance<D, G>,
    nodes: &Vec<[Double; D]>,
    cfg: &TgsConfig,
    ar: &Arithmetic<F>,
) -> (r: Result<Vec<Vec<usize>>, GeostatError>)
    requires
        data.well_formed(),
        data.labels().len() < 2 * HIDDEN,
        model.total(),
        ar.total(),
        tgs_ok(*ar, data, model, nodes@.len(), cfg) ==> tgs_runs(ar, data, nodes@, cfg),
    ensures
        tgs_outcome(ar, data, model, nodes@, None, cfg, r),
{
    tgs_at_with_levels(data, model, nodes, None, cfg, ar)
}

/// The realizations of a result.
pub open spec fn cut_realizations(r: Result<TgsResult, GeostatError>) -> Result<
    Vec<Vec<usize>>,
    GeostatError,
> {
    match r {
        Ok(out) => Ok(out.realizations),
        Err(e) => Err(e),
    }
}

/// `c` is the category of `y`: the number of thresholds below it.
pub open spec fn is_category(y: Double, thresholds: Seq<Double>, c: int) -> bool {
    &&& 0 <= c <= thresholds.len()
    &&& forall|i: int| 0 <= i < c ==> (#[trigger] thresholds[i]).below(y)
    &&& forall|i: int| c <= i < thresholds.len() ==> !(#[trigger] thresholds[i]).below(y)
}

/// A value has one category.
pub proof fn category_is_unique(y: Double, thresholds: Seq<Double>, a: int, b: int)
    requires
        is_category(y, thresholds, a),
        is_category(y, thresholds, b),
    ensures
        a == b,
{
    if a < b {
        assert(thresholds[a].below(y));
    }
    if b < a {
        assert(thresholds[b].below(y));
    }
}

/// Category of a standard normal value, given ascending thresholds. Ties fall
/// in the lower category.
pub fn tgs_classify(y: Double, thresholds: &Vec<Double>) -> (c: usize)
    requires
        ascends(thresholds@),
    ensures
        is_category(y, thresholds@, c as int),
{
    count_below(thresholds, y)
}

/// The field, cut at the thresholds.
pub open spec fn all_classified(
    field: Seq<Double>,
    thresholds: Seq<Double>,
    out: Seq<usize>,
) -> bool {
    out.len() == field.len() && forall|i: int|
        0 <= i < out.len() ==> is_category(field[i], thresholds, #[trigger] out[i] as int)
}

/// What a simulation on a 2-D grid gives: that at the cell centers, with the
/// multigrid levels of the cells.
pub open spec fn grid_outcome_2d<F: Fn(Op, Double, Double) -> Double, G: Fn([Double; 2]) -> Double>(
    ar: &Arithmetic<F>,
    data: &CategoricalData<2>,
    model: &Covariance<2, G>,
    grid: Grid2D,
    cfg: &TgsConfig,
    r: Result<Vec<Vec<usize>>, GeostatError>,
) -> bool {
    exists|centers: Seq<[Double; 2]>, levels: Option<Vec<u8>>|
        #![trigger grid.are_centers(*ar, centers), levels_for_2d(levels, grid, cfg.multigrid)]
        grid.are_centers(*ar, centers) && levels_for_2d(levels, grid, cfg.multigrid)
            && tgs_outcome(ar, data, model, centers, level_values(levels), cfg, r)
}

/// The simulation on a 2-D grid runs to its end.
pub open spec fn grid_runs_2d<F: Fn(Op, Double, Double) -> Double, G: Fn([Double; 2]) -> Double>(
    ar: &Arithmetic<F>,
    data: &CategoricalData<2>,
    model: &Covariance<2, G>,
    grid: Grid2D,
    cfg: &TgsConfig,
) -> bool {
    forall|centers: Seq<[Double; 2]>| #[trigger]
        grid.are_centers(*ar, centers) && tgs_ok(*ar, data, model, centers.len(), cfg) ==> tgs_runs(
            ar,
            data,
            centers,
            cfg,
        )
}

/// Runs truncated Gaussian simulation on a 2-D grid. The model is that of the
/// underlying standard Gaussian field.
pub fn truncated_gaussian_simulation<
    F: Fn(Op, Double, Double) -> Double + Sync,
    G: Fn([Double; 2]) -> Double + Sync,
>(
    data: &CategoricalData<2>,
    model: &Covariance<2, G>,
    grid: &Grid2D,
    cfg: &TgsConfig,
    ar: &Arithmetic<F>,
) -> (r: Result<TgsResult, GeostatError>)
    requires
        data.well_formed(),
        data.labels().len() < 2 * HIDDEN,
        model.total(),
        ar.total(),
        cfg.multigrid < usize::BITS,
        grid.listable(),
        grid_runs_2d(ar, data, model, *grid, cfg),
    ensures
        r matches Ok(out) ==> out.grid == *grid,
        grid_outcome_2d(ar, data, model, *grid, cfg, cut_realizations(r)),
{
    let centers: Vec<[Double; 2]> = grid.centers(ar);
    let levels: Option<Vec<u8>> = multigrid_2d(grid, cfg.multigrid);
    let list: Option<&Vec<u8>> = match &levels {
        Some(v) => Some(v),
        None => None,
    };
    assert(level_list(list) == level_values(levels));
    assert(grid.are_centers(*ar, centers@));
    assert(levels_for_2d(levels, *grid, cfg.multigrid));
    let r: Result<Vec<Vec<usize>>, GeostatError> = tgs_at_with_levels(
        data,
        model,
        &centers,
        list,
        cfg,
        ar,
    );
    assert(grid_outcome_2d(ar, data, model, *grid, cfg, r));
    match r {
        Ok(realizations) => Ok(TgsResult { grid: *grid, realizations }),
        Err(e) => Err(e),
    }
}

/// What a simulation on a 3-D grid gives: that at the cell centers, with the
/// multigrid levels of the cells.
pub open spec fn grid_outcome_3d<F: Fn(Op, Double, Double) -> Double, G: Fn([Double; 3]) -> Double>(
    ar: &Arithmetic<F>,
    data: &CategoricalData<3>,
    model: &Covariance<3, G>,
    grid: Grid3D,
    cfg: &TgsConfig,
    r: Result<Vec<Vec<usize>>, GeostatError>,
) -> bool {
    exists|centers: Seq<[Double; 3]>, levels: Option<Vec<u8>>|
        #![trigger grid.are_centers(*ar, centers), levels_for_3d(levels, grid, cfg.multigrid)]
        grid.are_centers(*ar, centers) && levels_for_3d(levels, grid, cfg.multigrid)
            && tgs_outcome(ar, data, model, centers, level_values(levels), cfg, r)
}

/// The simulation on a 3-D grid runs to its end.
pub open spec fn grid_runs_3d<F: Fn(Op, Double, Double) -> Double, G: Fn([Double; 3]) -> Double>(
    ar: &Arithmetic<F>,
    data: &CategoricalData<3>,
    model: &Covariance<3, G>,
    grid: Grid3D,
    cfg: &TgsConfig,
) -> bool {
    forall|centers: Seq<[Double; 3]>| #[trigger]
        grid.are_centers(*ar, centers) && tgs_ok(*ar, data, model, centers.len(), cfg) ==> tgs_runs(
            ar,
            data,
            centers,
            cfg,
        )
}

/// Runs truncated Gaussian simulation on a 3-D grid,
/// returning the realizations in grid storage order. The model is that of the
/// underlying standard Gaussian field.
pub fn truncated_gaussian_simulation_3d<
    F: Fn(Op, Double, Double) -> Double + Sync,
    G: Fn([Double; 3]) -> Double + Sync,
>(
    data: &CategoricalData<3>,
    model: &Covariance<3, G>,
    grid: &Grid3D,
    cfg: &TgsConfig,
    ar: &Arithmetic<F>,
) -> (r: Result<Vec<Vec<usize>>, GeostatError>)
    requires
        data.well_formed(),
        data.labels().len() < 2 * HIDDEN,
        model.total(),
        ar.total(),
        cfg.multigrid < usize::BITS,
        grid.listable(),
        grid.nx as nat * grid.ny as nat <= usize::MAX,
        grid_runs_3d(ar, data, model, *grid, cfg),
    ensures
        grid_outcome_3d(ar, data, model, *grid, cfg, r),
{
    let centers: Vec<[Double; 3]> = grid.centers(ar);
    let levels: Option<Vec<u8>> = multigrid_3d(grid, cfg.multigrid);
    let list: Option<&Vec<u8>> = match &levels {
        Some(v) => Some(v),
        None => None,
    };
    assert(level_list(list) == level_values(levels));
    assert(grid.are_centers(*ar, centers@));
    assert(levels_for_3d(levels, *grid, cfg.multigrid));
    let r: Result<Vec<Vec<usize>>, GeostatError> = tgs_at_with_levels(
        data,
        model,
        &centers,
        list,
        cfg,
        ar,
    );
    assert(grid_outcome_3d(ar, data, model, *grid, cfg, r));
    r
}

/// Both runs give the same realizations, or both fail.
pub open spec fn same_categories(
    r1: Result<Vec<Vec<usize>>, GeostatError>,
    r2: Result<Vec<Vec<usize>>, GeostatError>,
) -> bool {
    match (r1, r2) {
        (Ok(v1), Ok(v2)) => v1@.len() == v2@.len() && forall|i: int|
            0 <= i < v1@.len() ==> (#[trigger] v1@[i])@ == v2@[i]@,
        (Err(_), Err(_)) => true,
        _ => false,
    }
}

proof fn lemma_no_failure<const D: usize, F: Fn(Op, Double, Double) -> Double, G: Fn([Double; D]) -> Double>(
    ta: &Stage<D>,
    tb: &Stage<D>,
    ar: &Arithmetic<F>,
    model: &Covariance<D, G>,
    levels: Option<Seq<u8>>,
    pseudo: Seq<Double>,
    thresholds: Seq<Double>,
    cfg: &TgsConfig,
    v: Vec<Vec<usize>>,
    e: GeostatError,
)
    requires
        same_stage(*ar, ta, tb),
        realized(ta, ar, model, levels, pseudo, thresholds, cfg, Ok(v)),
    ensures
        !realized(tb, ar, model, levels, pseudo, thresholds, cfg, Err(e)),
{
    if realized(tb, ar, model, levels, pseudo, thresholds, cfg, Err(e)) {
        let q = cfg.quotas();
        let i = choose|i: nat|
            i < cfg.n_realizations && field_fails(
                tb,
                ar,
                model,
                levels,
                pseudo,
                q,
                #[trigger] stream_seed(cfg.seed, i),
                e,
            );
        let seed = stream_seed(cfg.seed, i);
        let out = v@[i as int]@;
        assert(is_cut_field(ta, ar, model, levels, pseudo, thresholds, q, seed, out));
        let f = choose|field: Seq<Double>| #[trigger]
            is_field(ta, ar, model, levels, pseudo, q, seed, field) && all_classified(
                field,
                thresholds,
                out,
            );
        field_excludes_failure(ta, tb, ar, model, levels, pseudo, q, seed, f, e);
    }
}

/// One seed gives one realization.
proof fn lemma_same_cut<const D: usize, F: Fn(Op, Double, Double) -> Double, G: Fn([Double; D]) -> Double>(
    ta: &Stage<D>,
    tb: &Stage<D>,
    ar: &Arithmetic<F>,
    model: &Covariance<D, G>,
    levels: Option<Seq<u8>>,
    pseudo: Seq<Double>,
    thresholds: Seq<Double>,
    q: Quotas,
    seed: u64,
    o1: Seq<usize>,
    o2: Seq<usize>,
)
    requires
        same_stage(*ar, ta, tb),
        ta.nodes@.len() <= usize::MAX,
        levels matches Some(ls) ==> ls.len() == ta.nodes@.len(),
        is_cut_field(ta, ar, model, levels, pseudo, thresholds, q, seed, o1),
        is_cut_field(tb, ar, model, levels, pseudo, thresholds, q, seed, o2),
    ensures
        o1 == o2,
{
    let f1 = choose|field: Seq<Double>| #[trigger]
        is_field(ta, ar, model, levels, pseudo, q, seed, field) && all_classified(
            field,
            thresholds,
            o1,
        );
    let f2 = choose|field: Seq<Double>| #[trigger]
        is_field(tb, ar, model, levels, pseudo, q, seed, field) && all_classified(
            field,
            thresholds,
            o2,
        );
    field_is_unique(ta, tb, ar, model, levels, pseudo, q, seed, f1, f2);
    assert forall|j: int| 0 <= j < f1.len() implies o1[j] == o2[j] by {
        category_is_unique(f1[j], thresholds, o1[j] as int, o2[j] as int);
    }
    assert(o1 =~= o2);
}

proof fn lemma_same_realized<const D: usize, F: Fn(Op, Double, Double) -> Double, G: Fn([Double; D]) -> Double>(
    ta: &Stage<D>,
    tb: &Stage<D>,
    ar: &Arithmetic<F>,
    model: &Covariance<D, G>,
    levels: Option<Seq<u8>>,
    pseudo: Seq<Double>,
    thresholds: Seq<Double>,
    cfg: &TgsConfig,
    r1: Result<Vec<Vec<usize>>, GeostatError>,
    r2: Result<Vec<Vec<usize>>, GeostatError>,
)
    requires
        same_stage(*ar, ta, tb),
        ta.nodes@.len() <= usize::MAX,
        levels matches Some(ls) ==> ls.len() == ta.nodes@.len(),
        realized(ta, ar, model, levels, pseudo, thresholds, cfg, r1),
        realized(tb, ar, model, levels, pseudo, thresholds, cfg, r2),
    ensures
        same_categories(r1, r2),
{
    let q = cfg.quotas();
    if r1 is Ok && r2 is Ok {
        let v1 = r1->Ok_0@;
        let v2 = r2->Ok_0@;
        assert forall|i: int| 0 <= i < v1.len() implies (#[trigger] v1[i])@ == v2[i]@ by {
            let seed = stream_seed(cfg.seed, i as nat);
            assert(is_cut_field(ta, ar, model, levels, pseudo, thresholds, q, seed, v1[i]@));
            assert(is_cut_field(tb, ar, model, levels, pseudo, thresholds, q, seed, v2[i]@));
            lemma_same_cut(
                ta,
                tb,
                ar,
                model,
                levels,
                pseudo,
                thresholds,
                q,
                seed,
                v1[i]@,
                v2[i]@,
            );
        }
    } else if r1 is Ok {
        lemma_no_failure(
            ta,
            tb,
            ar,
            model,
            levels,
            pseudo,
            thresholds,
            cfg,
            r1->Ok_0,
            r2->Err_0,
        );
    } else if r2 is Ok {
        assert(same_stage(*ar, tb, ta));
        lemma_no_failure(
            tb,
            ta,
            ar,
            model,
            levels,
            pseudo,
            thresholds,
            cfg,
            r2->Ok_0,
            r1->Err_0,
        );
    }
}

/// A simulation is reproducible: data, model, nodes and configuration, the seed among
/// them, determine its realizations, whatever runs beside it.
pub proof fn same_seed_same_realizations<const D: usize, F: Fn(Op, Double, Double) -> Double, G: Fn([Double; D]) -> Double>(
    ar: &Arithmetic<F>,
    data: &CategoricalData<D>,
    model: &Covariance<D, G>,
    nodes: Seq<[Double; D]>,
    levels: Option<Seq<u8>>,
    cfg: &TgsConfig,
    r1: Result<Vec<Vec<usize>>, GeostatError>,
    r2: Result<Vec<Vec<usize>>, GeostatError>,
)
    requires
        levels matches Some(ls) ==> ls.len() == nodes.len(),
        tgs_runs(ar, data, nodes, cfg),
        tgs_outcome(ar, data, model, nodes, levels, cfg, r1),
        tgs_outcome(ar, data, model, nodes, levels, cfg, r2),
    ensures
        same_categories(r1, r2),
{
    if tgs_ok(*ar, data, model, nodes.len(), cfg) {
        let props = cfg.proportions_for(*ar, data);
        let pseudo = pseudo_values(*ar, data.labels(), props);
        let thresholds = thresholds_of(*ar, props);
        let ta = choose|stage: Stage<D>| #[trigger]
            stage.is_set(*ar, data.places(), nodes) && realized(
                &stage,
                ar,
                model,
                levels,
                pseudo,
                thresholds,
                cfg,
                r1,
            );
        let tb = choose|stage: Stage<D>| #[trigger]
            stage.is_set(*ar, data.places(), nodes) && realized(
                &stage,
                ar,
                model,
                levels,
                pseudo,
                thresholds,
                cfg,
                r2,
            );
        lemma_same_realized(&ta, &tb, ar, model, levels, pseudo, thresholds, cfg, r1, r2);
    }
}

/// The first realizations do not depend on how many are run: a run of more gives
/// the same ones first.
pub proof fn first_realizations_stay<const D: usize, F: Fn(Op, Double, Double) -> Double, G: Fn([Double; D]) -> Double>(
    ar: &Arithmetic<F>,
    data: &CategoricalData<D>,
    model: &Covariance<D, G>,
    nodes: Seq<[Double; D]>,
    levels: Option<Seq<u8>>,
    few: &TgsConfig,
    many: &TgsConfig,
    v1: Vec<Vec<usize>>,
    v2: Vec<Vec<usize>>,
)
    requires
        levels matches Some(ls) ==> ls.len() == nodes.len(),
        few.seed == many.seed,
        few.quotas() == many.quotas(),
        few.proportions_for(*ar, data) == many.proportions_for(*ar, data),
        few.n_realizations <= many.n_realizations,
        tgs_runs(ar, data, nodes, many),
        tgs_outcome(ar, data, model, nodes, levels, few, Ok(v1)),
        tgs_outcome(ar, data, model, nodes, levels, many, Ok(v2)),
    ensures
        v1@.len() == few.n_realizations,
        v2@.len() == many.n_realizations,
        forall|i: int| 0 <= i < v1@.len() ==> (#[trigger] v1@[i])@ == v2@[i]@,
{
    let props = many.proportions_for(*ar, data);
    let pseudo = pseudo_values(*ar, data.labels(), props);
    let thresholds = thresholds_of(*ar, props);
    let q = many.quotas();
    let ta = choose|stage: Stage<D>| #[trigger]
        stage.is_set(*ar, data.places(), nodes) && realized(
            &stage,
            ar,
            model,
            levels,
            pseudo,
            thresholds,
            few,
            Ok(v1),
        );
    let tb = choose|stage: Stage<D>| #[trigger]
        stage.is_set(*ar, data.places(), nodes) && realized(
            &stage,
            ar,
            model,
            levels,
            pseudo,
            thresholds,
            many,
            Ok(v2),
        );
    assert forall|i: int| 0 <= i < v1@.len() implies (#[trigger] v1@[i])@ == v2@[i]@ by {
        let seed = stream_seed(many.seed, i as nat);
        assert(is_cut_field(&ta, ar, model, levels, pseudo, thresholds, q, seed, v1@[i]@));
        assert(is_cut_field(&tb, ar, model, levels, pseudo, thresholds, q, seed, v2@[i]@));
        lemma_same_cut(
            &ta,
            &tb,
            ar,
            model,
            levels,
            pseudo,
            thresholds,
            q,
            seed,
            v1@[i]@,
            v2@[i]@,
        );
    }
}

/// A simulation on a 2-D grid is reproducible.
pub proof fn same_seed_same_grid_2d<F: Fn(Op, Double, Double) -> Double, G: Fn([Double; 2]) -> Double>(
    ar: &Arithmetic<F>,
    data: &CategoricalData<2>,
    model: &Covariance<2, G>,
    grid: Grid2D,
    cfg: &TgsConfig,
    r1: Result<Vec<Vec<usize>>, GeostatError>,
    r2: Result<Vec<Vec<usize>>, GeostatError>,
)
    requires
        grid_runs_2d(ar, data, model, grid, cfg),
        grid_outcome_2d(ar, data, model, grid, cfg, r1),
        grid_outcome_2d(ar, data, model, grid, cfg, r2),
    ensures
        same_categories(r1, r2),
{
    let (c1, l1) = choose|centers: Seq<[Double; 2]>, levels: Option<Vec<u8>>|
        #![trigger grid.are_centers(*ar, centers), levels_for_2d(levels, grid, cfg.multigrid)]
        grid.are_centers(*ar, centers) && levels_for_2d(levels, grid, cfg.multigrid)
            && tgs_outcome(ar, data, model, centers, level_values(levels), cfg, r1);
    let (c2, l2) = choose|centers: Seq<[Double; 2]>, levels: Option<Vec<u8>>|
        #![trigger grid.are_centers(*ar, centers), levels_for_2d(levels, grid, cfg.multigrid)]
        grid.are_centers(*ar, centers) && levels_for_2d(levels, grid, cfg.multigrid)
            && tgs_outcome(ar, data, model, centers, level_values(levels), cfg, r2);
    grid.centers_are_unique(*ar, c1, c2);
    levels_are_unique_2d(l1, l2, grid, cfg.multigrid);
    if tgs_ok(*ar, data, model, c1.len(), cfg) {
        same_seed_same_realizations(ar, data, model, c1, level_values(l1), cfg, r1, r2);
    }
}

/// A simulation on a 3-D grid is reproducible.
pub proof fn same_seed_same_grid_3d<F: Fn(Op, Double, Double) -> Double, G: Fn([Double; 3]) -> Double>(
    ar: &Arithmetic<F>,
    data: &CategoricalData<3>,
    model: &Covariance<3, G>,
    grid: Grid3D,
    cfg: &TgsConfig,
    r1: Result<Vec<Vec<usize>>, GeostatError>,
    r2: Result<Vec<Vec<usize>>, GeostatError>,
)
    requires
        grid_runs_3d(ar, data, model, grid, cfg),
        grid_outcome_3d(ar, data, model, grid, cfg, r1),
        grid_outcome_3d(ar, data, model, grid, cfg, r2),
    ensures
        same_categories(r1, r2),
{
    let (c1, l1) = choose|centers: Seq<[Double; 3]>, levels: Option<Vec<u8>>|
        #![trigger grid.are_centers(*ar, centers), levels_for_3d(levels, grid, cfg.multigrid)]
        grid.are_centers(*ar, centers) && levels_for_3d(levels, grid, cfg.multigrid)
            && tgs_outcome(ar, data, model, centers, level_values(levels), cfg, r1);
    let (c2, l2) = choose|centers: Seq<[Double; 3]>, levels: Option<Vec<u8>>|
        #![trigger grid.are_centers(*ar, centers), levels_for_3d(levels, grid, cfg.multigrid)]
        grid.are_centers(*ar, centers) && levels_for_3d(levels, grid, cfg.multigrid)
            && tgs_outcome(ar, data, model, centers, level_values(levels), cfg, r2);
    grid.centers_are_unique(*ar, c1, c2);
    levels_are_unique_3d(l1, l2, grid, cfg.multigrid);
    if tgs_ok(*ar, data, model, c1.len(), cfg) {
        same_seed_same_realizations(ar, data, model, c1, level_values(l1), cfg, r1, r2);
    }
}

} // verus!

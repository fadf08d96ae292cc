//! Simple interpolators: inverse-distance weighting and averages of the nearest
//! neighbors, with their leave-one-out cross-validation.

use vstd::prelude::*;

use crate::arith::{num, Arithmetic, MINUS_ZERO, Op};
use crate::data::{copy_points, PointSet};
use crate::double::{Double, NOT_A_NUMBER};
use crate::error::{insufficient, invalid, invalid_parameter, too_little, GeostatError};
use crate::kdtree::{limit, spread, KdTree};
use crate::kriging::copy_values;
use crate::parallel::par_map;
use crate::search::{k_nearest_of, lemma_found_fit};

verus! {

/// Bit pattern of the distance at which a target is at a datum.
pub const COINCIDENT: u64 = 0x3D71_9799_812D_EA11;

/// Observed and predicted values of a cross-validation, with the estimation
/// variances.
#[derive(Debug, PartialEq, Eq)]
pub struct CvResult {
    /// Observed values.
    pub observed: Vec<Double>,
    /// Predicted values.
    pub predicted: Vec<Double>,
    /// Estimation variances.
    pub variance: Vec<Double>,
}

/// The data can be searched.
pub open spec fn searchable<const D: usize>(data: &PointSet<D>) -> bool {
    &&& 0 < D
    &&& data.well_formed()
    &&& data.places().len() <= u32::MAX
}

/// `nb` are the at most `k` nearest data points within the radius.
pub open spec fn nearest_data<const D: usize, F: Fn(Op, Double, Double) -> Double>(
    ar: Arithmetic<F>,
    data: &PointSet<D>,
    k: nat,
    radius: Option<Double>,
    target: [Double; D],
    nb: Seq<usize>,
) -> bool {
    k_nearest_of(
        nb,
        k,
        spread(ar, data.places(), target),
        data.places().len(),
        limit(ar.square_radius(radius)),
    )
}

/// Squared differences of the first `n` coordinates of two points.
pub open spec fn squares_between<F: Fn(Op, Double, Double) -> Double>(
    ar: Arithmetic<F>,
    p: Seq<Double>,
    q: Seq<Double>,
    n: nat,
) -> Seq<Double> {
    Seq::new(n, |d: int| ar.square(ar.minus(p[d], q[d])))
}

/// Euclidean distance of two points.
fn distance<const D: usize, F: Fn(Op, Double, Double) -> Double>(
    a: [Double; D],
    b: [Double; D],
    ar: &Arithmetic<F>,
) -> (r: Double)
    requires
        ar.total(),
    ensures
        r == ar.sqrt(ar.total_of(squares_between(*ar, a@, b@, D as nat))),
{
    let mut s: Double = num(MINUS_ZERO);
    for d in 0..D
        invariant
            ar.total(),
            s == ar.total_of(squares_between(*ar, a@, b@, d as nat)),
    {
        assert(squares_between(*ar, a@, b@, (d + 1) as nat).drop_last() =~= squares_between(
            *ar,
            a@,
            b@,
            d as nat,
        ));
        s = ar.plus(s, ar.square(ar.minus(a[d], b[d])));
    }
    ar.sqrt(s)
}

/// Distances of data points from the target.
pub open spec fn distances<const D: usize, F: Fn(Op, Double, Double) -> Double>(
    ar: Arithmetic<F>,
    data: &PointSet<D>,
    target: [Double; D],
    nb: Seq<usize>,
) -> Seq<Double> {
    Seq::new(
        nb.len(),
        |i: int|
            ar.sqrt(
                ar.total_of(
                    squares_between(ar, target@, data.places()[nb[i] as int]@, D as nat),
                ),
            ),
    )
}

/// Values of data points.
pub open spec fn values_of<const D: usize>(data: &PointSet<D>, nb: Seq<usize>) -> Seq<Double> {
    Seq::new(nb.len(), |i: int| data.attributes()[nb[i] as int])
}

/// Inverse-distance weights.
pub open spec fn idw_weights<F: Fn(Op, Double, Double) -> Double>(
    ar: Arithmetic<F>,
    ds: Seq<Double>,
    power: Double,
) -> Seq<Double> {
    Seq::new(ds.len(), |i: int| ar.pow(ds[i], power.neg()))
}

/// Point `i` is the first at which the target lies.
pub open spec fn first_hit(ds: Seq<Double>, i: int) -> bool {
    &&& 0 <= i < ds.len()
    &&& ds[i].le(num(COINCIDENT))
    &&& forall|j: int| 0 <= j < i ==> !(#[trigger] ds[j]).le(num(COINCIDENT))
}

/// The target lies at none of the points.
pub open spec fn no_hit(ds: Seq<Double>) -> bool {
    forall|j: int| 0 <= j < ds.len() ==> !(#[trigger] ds[j]).le(num(COINCIDENT))
}

/// `r` is the inverse-distance mean of values at distances: NaN of none, the
/// value of the first point at which the target lies, or the weighted mean.
pub open spec fn is_idw<F: Fn(Op, Double, Double) -> Double>(
    ar: Arithmetic<F>,
    ds: Seq<Double>,
    vs: Seq<Double>,
    power: Double,
    r: Double,
) -> bool {
    if ds.len() == 0 {
        r == num(NOT_A_NUMBER)
    } else if no_hit(ds) {
        let ws = idw_weights(ar, ds, power);
        r == ar.over(ar.dot_from(num(0), ws, vs, ds.len() as int), ar.accumulated(ws))
    } else {
        exists|i: int| #[trigger] first_hit(ds, i) && r == vs[i]
    }
}

/// The result of inverse-distance weighting is one value.
pub proof fn idw_is_unique<F: Fn(Op, Double, Double) -> Double>(
    ar: Arithmetic<F>,
    ds: Seq<Double>,
    vs: Seq<Double>,
    power: Double,
    a: Double,
    b: Double,
)
    requires
        is_idw(ar, ds, vs, power, a),
        is_idw(ar, ds, vs, power, b),
    ensures
        a == b,
{
    if ds.len() > 0 && !no_hit(ds) {
        let i = choose|i: int| #[trigger] first_hit(ds, i) && a == vs[i];
        let j = choose|j: int| #[trigger] first_hit(ds, j) && b == vs[j];
        if i < j {
            assert(!ds[i].le(num(COINCIDENT)));
        }
        if j < i {
            assert(!ds[j].le(num(COINCIDENT)));
        }
    }
}

/// Inverse-distance weighting: the mean of values weighted by a negative power
/// of the distance. Exact at the data.
pub struct Idw<'a, const D: usize> {
    data: &'a PointSet<D>,
    tree: KdTree<D>,
    power: Double,
    max_neighbors: Option<usize>,
    radius: Option<Double>,
}

/// Parameters of inverse-distance weighting are in order.
pub open spec fn idw_ok(power: Double, n: nat) -> bool {
    power.is_positive() && n > 0
}

/// Why they are not.
pub open spec fn idw_refused(power: Double, e: GeostatError) -> bool {
    if !power.is_positive() {
        invalid(e, "IDW power must be positive"@)
    } else {
        insufficient(e, "IDW needs ≥ 1 point"@)
    }
}

/// Most neighbors taken of `n` data points.
pub open spec fn most_of(max_neighbors: Option<usize>, n: nat) -> nat {
    match max_neighbors {
        Some(k) => k as nat,
        None => n,
    }
}

/// What inverse-distance weighting predicts.
pub open spec fn idw_predicts<const D: usize, F: Fn(Op, Double, Double) -> Double>(
    ar: Arithmetic<F>,
    data: &PointSet<D>,
    power: Double,
    max_neighbors: Option<usize>,
    radius: Option<Double>,
    target: [Double; D],
    r: Double,
) -> bool {
    exists|nb: Seq<usize>| #[trigger]
        nearest_data(ar, data, most_of(max_neighbors, data.places().len()), radius, target, nb)
            && is_idw(
            ar,
            distances(ar, data, target, nb),
            values_of(data, nb),
            power,
            r,
        )
}

impl<'a, const D: usize> Idw<'a, D> {
    /// The data.
    pub closed spec fn data(&self) -> &PointSet<D> {
        self.data
    }

    /// Exponent of the distance.
    pub closed spec fn power(&self) -> Double {
        self.power
    }

    /// Most neighbors taken.
    pub closed spec fn most(&self) -> Option<usize> {
        self.max_neighbors
    }

    /// Search radius.
    pub closed spec fn reach(&self) -> Option<Double> {
        self.radius
    }

    /// The tree holds the data.
    pub closed spec fn well_formed(&self) -> bool {
        &&& searchable(self.data)
        &&& self.tree.well_formed()
        &&& self.tree.points() == self.data.places()
    }

    /// The predictor can predict.
    pub open spec fn ready<F: Fn(Op, Double, Double) -> Double>(&self, ar: &Arithmetic<F>) -> bool {
        self.well_formed() && ar.ieee()
    }

    /// Builds a predictor. With `max_neighbors` and `radius` unset, every datum
    /// contributes to each estimate.
    pub fn new(
        data: &'a PointSet<D>,
        power: Double,
        max_neighbors: Option<usize>,
        radius: Option<Double>,
    ) -> (r: Result<Self, GeostatError>)
        requires
            searchable(data),
        ensures
            match r {
                Ok(p) => {
                    &&& idw_ok(power, data.places().len())
                    &&& p.well_formed()
                    &&& p.data() == data
                    &&& p.power() == power
                    &&& p.most() == max_neighbors
                    &&& p.reach() == radius
                },
                Err(e) => !idw_ok(power, data.places().len()) && idw_refused(power, e),
            },
    {
        if !power.is_positive() {
            return Err(invalid_parameter("IDW power must be positive"));
        }
        if data.is_empty() {
            return Err(too_little("IDW needs ≥ 1 point"));
        }
        Ok(
            Idw { tree: KdTree::build(copy_points(data.coords())), data, power, max_neighbors, radius },
        )
    }

    /// Predicts at a target. NaN if no point lies within the search
    /// neighborhood.
    pub fn predict<F: Fn(Op, Double, Double) -> Double>(
        &self,
        target: [Double; D],
        ar: &Arithmetic<F>,
    ) -> (r: Double)
        requires
            self.ready(ar),
        ensures
            idw_predicts(
                *ar,
                self.data(),
                self.power(),
                self.most(),
                self.reach(),
                target,
                r,
            ),
    {
        let k: usize = match self.max_neighbors {
            Some(k) => k,
            None => self.data.len(),
        };
        let nb: Vec<usize> = self.tree.nearest(target, k, self.radius, ar);
        let ghost most = most_of(self.max_neighbors, self.data.places().len());
        assert(nearest_data(*ar, self.data, most, self.radius, target, nb@));
        let ghost ds = distances(*ar, self.data, target, nb@);
        let ghost vs = values_of(self.data, nb@);
        if nb.len() == 0 {
            assert(is_idw(*ar, ds, vs, self.power, num(NOT_A_NUMBER)));
            return Double::not_a_number();
        }
        let ghost ws = idw_weights(*ar, ds, self.power);
        let mut top: Double = Double::zero();
        let mut bottom: Double = Double::zero();
        for i in 0..nb.len()
            invariant
                ar.total(),
                self.data.well_formed(),
                forall|j: int| 0 <= j < nb.len() ==> (#[trigger] nb@[j]) < self.data.places().len(),
                ds == distances(*ar, self.data, target, nb@),
                vs == values_of(self.data, nb@),
                ws == idw_weights(*ar, ds, self.power),
                nb.len() > 0,
                most == most_of(self.max_neighbors, self.data.places().len()),
                nearest_data(*ar, self.data, most, self.radius, target, nb@),
                forall|j: int| 0 <= j < i ==> !(#[trigger] ds[j]).le(num(COINCIDENT)),
                top == ar.dot_from(num(0), ws, vs, i as int),
                bottom == ar.accumulated(ws.take(i as int)),
        {
            let p: [Double; D] = self.data.coord(nb[i]);
            let d: Double = distance(target, p, ar);
            assert(d == ds[i as int]);
            let v: Double = self.data.value(nb[i]);
            if d.le(num(COINCIDENT)) {
                assert(first_hit(ds, i as int));
                assert(is_idw(*ar, ds, vs, self.power, v));
                return v;
            }
            let w: Double = ar.pow(d, self.power.neg());
            assert(ws.take(i + 1).drop_last() =~= ws.take(i as int));
            top = ar.plus(top, ar.times(w, v));
            bottom = ar.plus(bottom, w);
        }
        assert(ws.take(ws.len() as int) =~= ws);
        assert(no_hit(ds));
        let r: Double = ar.over(top, bottom);
        assert(is_idw(*ar, ds, vs, self.power, r));
        r
    }

    /// Predicts at many targets, in parallel.
    pub fn predict_many<F: Fn(Op, Double, Double) -> Double + Sync>(
        &self,
        targets: &Vec<[Double; D]>,
        ar: &Arithmetic<F>,
    ) -> (out: Vec<Double>)
        requires
            self.ready(ar),
        ensures
            out@.len() == targets@.len(),
            forall|i: int|
                0 <= i < out@.len() ==> idw_predicts(
                    *ar,
                    self.data(),
                    self.power(),
                    self.most(),
                    self.reach(),
                    targets@[i],
                    #[trigger] out@[i],
                ),
    {
        let one = |i: usize| -> (r: Double)
            requires
                i < targets.len(),
                self.ready(ar),
            ensures
                idw_predicts(
                    *ar,
                    self.data(),
                    self.power(),
                    self.most(),
                    self.reach(),
                    targets@[i as int],
                    r,
                ),
            { self.predict(targets[i], ar) };
        par_map(targets.len(), one)
    }
}

/// Averages of the nearest neighbors; of one neighbor, its value.
pub struct Knn<'a, const D: usize> {
    data: &'a PointSet<D>,
    tree: KdTree<D>,
    k: usize,
    radius: Option<Double>,
}

/// Why a predictor of nearest neighbors is refused.
pub open spec fn knn_refused(k: usize, e: GeostatError) -> bool {
    if k == 0 {
        invalid(e, "k must be ≥ 1"@)
    } else {
        insufficient(e, "k-NN needs ≥ 1 point"@)
    }
}

/// What averaging the nearest neighbors predicts: NaN of none.
pub open spec fn knn_predicts<const D: usize, F: Fn(Op, Double, Double) -> Double>(
    ar: Arithmetic<F>,
    data: &PointSet<D>,
    k: usize,
    radius: Option<Double>,
    target: [Double; D],
    r: Double,
) -> bool {
    exists|nb: Seq<usize>| #[trigger]
        nearest_data(ar, data, k as nat, radius, target, nb) && r == (if nb.len() == 0 {
            num(NOT_A_NUMBER)
        } else {
            ar.average_of(values_of(data, nb))
        })
}

impl<'a, const D: usize> Knn<'a, D> {
    /// The data.
    pub closed spec fn data(&self) -> &PointSet<D> {
        self.data
    }

    /// Number of neighbors.
    pub closed spec fn neighbors(&self) -> usize {
        self.k
    }

    /// Search radius.
    pub closed spec fn reach(&self) -> Option<Double> {
        self.radius
    }

    /// The tree holds the data.
    pub closed spec fn well_formed(&self) -> bool {
        &&& searchable(self.data)
        &&& self.tree.well_formed()
        &&& self.tree.points() == self.data.places()
    }

    /// The predictor can predict.
    pub open spec fn ready<F: Fn(Op, Double, Double) -> Double>(&self, ar: &Arithmetic<F>) -> bool {
        self.well_formed() && ar.ieee()
    }

    /// Builds a predictor from at least one neighbor.
    pub fn new(data: &'a PointSet<D>, k: usize, radius: Option<Double>) -> (r: Result<
        Self,
        GeostatError,
    >)
        requires
            searchable(data),
        ensures
            match r {
                Ok(p) => {
                    &&& k > 0 && data.places().len() > 0
                    &&& p.well_formed()
                    &&& p.data() == data
                    &&& p.neighbors() == k
                    &&& p.reach() == radius
                },
                Err(e) => !(k > 0 && data.places().len() > 0) && knn_refused(k, e),
            },
    {
        if k == 0 {
            return Err(invalid_parameter("k must be ≥ 1"));
        }
        if data.is_empty() {
            return Err(too_little("k-NN needs ≥ 1 point"));
        }
        Ok(Knn { tree: KdTree::build(copy_points(data.coords())), data, k, radius })
    }

    /// Predicts at a target as the mean of the nearest values. NaN if no point
    /// lies within the search neighborhood.
    pub fn predict<F: Fn(Op, Double, Double) -> Double>(
        &self,
        target: [Double; D],
        ar: &Arithmetic<F>,
    ) -> (r: Double)
        requires
            self.ready(ar),
        ensures
            knn_predicts(*ar, self.data(), self.neighbors(), self.reach(), target, r),
    {
        let nb: Vec<usize> = self.tree.nearest(target, self.k, self.radius, ar);
        assert(nearest_data(*ar, self.data, self.k as nat, self.radius, target, nb@));
        if nb.len() == 0 {
            return Double::not_a_number();
        }
        proof {
            lemma_found_fit(
                nb@,
                self.k as nat,
                spread(*ar, self.data.places(), target),
                self.data.places().len(),
                limit(ar.square_radius(self.radius)),
            );
        }
        let mut values: Vec<Double> = Vec::new();
        for i in 0..nb.len()
            invariant
                self.data.well_formed(),
                forall|j: int| 0 <= j < nb.len() ==> (#[trigger] nb@[j]) < self.data.places().len(),
                values@ =~= values_of(self.data, nb@).take(i as int),
        {
            values.push(self.data.value(nb[i]));
        }
        assert(values@ =~= values_of(self.data, nb@));
        ar.mean(&values)
    }

    /// Predicts at many targets, in parallel.
    pub fn predict_many<F: Fn(Op, Double, Double) -> Double + Sync>(
        &self,
        targets: &Vec<[Double; D]>,
        ar: &Arithmetic<F>,
    ) -> (out: Vec<Double>)
        requires
            self.ready(ar),
        ensures
            out@.len() == targets@.len(),
            forall|i: int|
                0 <= i < out@.len() ==> knn_predicts(
                    *ar,
                    self.data(),
                    self.neighbors(),
                    self.reach(),
                    targets@[i],
                    #[trigger] out@[i],
                ),
    {
        let one = |i: usize| -> (r: Double)
            requires
                i < targets.len(),
                self.ready(ar),
            ensures
                knn_predicts(
                    *ar,
                    self.data(),
                    self.neighbors(),
                    self.reach(),
                    targets@[i as int],
                    r,
                ),
            { self.predict(targets[i], ar) };
        par_map(targets.len(), one)
    }
}

/// `sub` is the data without point `i`.
pub open spec fn without<const D: usize>(data: &PointSet<D>, i: int, sub: &PointSet<D>) -> bool {
    &&& sub.places() == data.places().remove(i)
    &&& sub.attributes() == data.attributes().remove(i)
}

/// NaN as often as there are data.
pub open spec fn all_nan(n: nat) -> Seq<Double> {
    Seq::new(n, |i: int| num(NOT_A_NUMBER))
}

fn fill_with_nan(n: usize) -> (v: Vec<Double>)
    ensures
        v@ == all_nan(n as nat),
{
    let mut v: Vec<Double> = Vec::new();
    for i in 0..n
        invariant
            v@ =~= all_nan(i as nat),
    {
        v.push(Double::not_a_number());
    }
    v
}

/// `r` is what is predicted at point `i` from the others.
pub open spec fn idw_left_out<const D: usize, F: Fn(Op, Double, Double) -> Double>(
    ar: Arithmetic<F>,
    data: &PointSet<D>,
    power: Double,
    max_neighbors: Option<usize>,
    radius: Option<Double>,
    i: int,
    r: Double,
) -> bool {
    exists|sub: PointSet<D>| #[trigger]
        without(data, i, &sub) && idw_predicts(
            ar,
            &sub,
            power,
            max_neighbors,
            radius,
            data.places()[i],
            r,
        )
}

fn leave_out_idw<const D: usize, F: Fn(Op, Double, Double) -> Double>(
    data: &PointSet<D>,
    power: Double,
    max_neighbors: Option<usize>,
    radius: Option<Double>,
    i: usize,
    ar: &Arithmetic<F>,
) -> (r: Double)
    requires
        searchable(data),
        idw_ok(power, data.places().len()),
        data.places().len() >= 2,
        i < data.places().len(),
        ar.ieee(),
    ensures
        idw_left_out(*ar, data, power, max_neighbors, radius, i as int, r),
{
    let sub: PointSet<D> = data.excluding(i);
    assert(without(data, i as int, &sub));
    match Idw::new(&sub, power, max_neighbors, radius) {
        Ok(idw) => idw.predict(data.coord(i), ar),
        Err(_) => Double::not_a_number(),
    }
}

/// What cross-validation of inverse-distance weighting gives.
pub open spec fn idw_validated<const D: usize, F: Fn(Op, Double, Double) -> Double>(
    ar: Arithmetic<F>,
    data: &PointSet<D>,
    power: Double,
    max_neighbors: Option<usize>,
    radius: Option<Double>,
    r: Result<CvResult, GeostatError>,
) -> bool {
    if data.places().len() < 3 {
        r matches Err(e) && insufficient(e, "cross-validation requires at least 3 points"@)
    } else if !power.is_positive() {
        r matches Err(e) && invalid(e, "IDW power must be positive"@)
    } else {
        r matches Ok(cv) && {
            &&& cv.observed@ == data.attributes()
            &&& cv.variance@ == all_nan(data.places().len())
            &&& cv.predicted@.len() == data.places().len()
            &&& forall|i: int|
                0 <= i < cv.predicted@.len() ==> idw_left_out(
                    ar,
                    data,
                    power,
                    max_neighbors,
                    radius,
                    i,
                    #[trigger] cv.predicted@[i],
                )
        }
    }
}

/// Leave-one-out cross-validation: each point is predicted from all others.
/// There is no estimation variance, so the variances are NaN.
pub fn idw_cross_validate<const D: usize, F: Fn(Op, Double, Double) -> Double + Sync>(
    data: &PointSet<D>,
    power: Double,
    max_neighbors: Option<usize>,
    radius: Option<Double>,
    ar: &Arithmetic<F>,
) -> (r: Result<CvResult, GeostatError>)
    requires
        searchable(data),
        ar.ieee(),
    ensures
        idw_validated(*ar, data, power, max_neighbors, radius, r),
{
    if data.len() < 3 {
        return Err(too_little("cross-validation requires at least 3 points"));
    }
    match Idw::new(data, power, max_neighbors, radius) {
        Err(e) => {
            return Err(e);
        },
        Ok(_) => {},
    }
    let n: usize = data.len();
    let one = |i: usize| -> (p: Double)
        requires
            i < data.places().len(),
            data.places().len() >= 2,
            searchable(data),
            idw_ok(power, data.places().len()),
            ar.ieee(),
        ensures
            idw_left_out(*ar, data, power, max_neighbors, radius, i as int, p),
        { leave_out_idw(data, power, max_neighbors, radius, i, ar) };
    let predicted: Vec<Double> = par_map(n, one);
    Ok(CvResult { observed: copy_values(data.values()), predicted, variance: fill_with_nan(n) })
}

/// `r` is what is predicted at point `i` from the others.
pub open spec fn knn_left_out<const D: usize, F: Fn(Op, Double, Double) -> Double>(
    ar: Arithmetic<F>,
    data: &PointSet<D>,
    k: usize,
    radius: Option<Double>,
    i: int,
    r: Double,
) -> bool {
    exists|sub: PointSet<D>| #[trigger]
        without(data, i, &sub) && knn_predicts(ar, &sub, k, radius, data.places()[i], r)
}

fn leave_out_knn<const D: usize, F: Fn(Op, Double, Double) -> Double>(
    data: &PointSet<D>,
    k: usize,
    radius: Option<Double>,
    i: usize,
    ar: &Arithmetic<F>,
) -> (r: Double)
    requires
        searchable(data),
        k > 0,
        data.places().len() >= 2,
        i < data.places().len(),
        ar.ieee(),
    ensures
        knn_left_out(*ar, data, k, radius, i as int, r),
{
    let sub: PointSet<D> = data.excluding(i);
    assert(without(data, i as int, &sub));
    match Knn::new(&sub, k, radius) {
        Ok(knn) => knn.predict(data.coord(i), ar),
        Err(_) => Double::not_a_number(),
    }
}

/// What cross-validation of averages of nearest neighbors gives.
pub open spec fn knn_validated<const D: usize, F: Fn(Op, Double, Double) -> Double>(
    ar: Arithmetic<F>,
    data: &PointSet<D>,
    k: usize,
    radius: Option<Double>,
    r: Result<CvResult, GeostatError>,
) -> bool {
    if data.places().len() < 3 {
        r matches Err(e) && insufficient(e, "cross-validation requires at least 3 points"@)
    } else if k == 0 {
        r matches Err(e) && invalid(e, "k must be ≥ 1"@)
    } else {
        r matches Ok(cv) && {
            &&& cv.observed@ == data.attributes()
            &&& cv.variance@ == all_nan(data.places().len())
            &&& cv.predicted@.len() == data.places().len()
            &&& forall|i: int|
                0 <= i < cv.predicted@.len() ==> knn_left_out(
                    ar,
                    data,
                    k,
                    radius,
                    i,
                    #[trigger] cv.predicted@[i],
                )
        }
    }
}

/// Leave-one-out cross-validation of averages of nearest neighbors; the
/// variances are NaN.
pub fn knn_cross_validate<const D: usize, F: Fn(Op, Double, Double) -> Double + Sync>(
    data: &PointSet<D>,
    k: usize,
    radius: Option<Double>,
    ar: &Arithmetic<F>,
) -> (r: Result<CvResult, GeostatError>)
    requires
        searchable(data),
        ar.ieee(),
    ensures
        knn_validated(*ar, data, k, radius, r),
{
    if data.len() < 3 {
        return Err(too_little("cross-validation requires at least 3 points"));
    }
    match Knn::new(data, k, radius) {
        Err(e) => {
            return Err(e);
        },
        Ok(_) => {},
    }
    let n: usize = data.len();
    let one = |i: usize| -> (p: Double)
        requires
            i < data.places().len(),
            data.places().len() >= 2,
            searchable(data),
            k > 0,
            ar.ieee(),
        ensures
            knn_left_out(*ar, data, k, radius, i as int, p),
        { leave_out_knn(data, k, radius, i, ar) };
    let predicted: Vec<Double> = par_map(n, one);
    Ok(CvResult { observed: copy_values(data.values()), predicted, variance: fill_with_nan(n) })
}

} // verus!

//! Regression kriging: a trend plus kriging of its residuals.

use vstd::prelude::*;

use crate::arith::{num, Arithmetic, Op, HALF};
use crate::bucket_grid::{extents_of, widest};
use crate::covariance::Covariance;
use crate::data::{copy_points, finite_values, PointSet};
use crate::double::{Double, ONE};
use crate::error::{insufficient, invalid, mismatch, mismatched, GeostatError, Message};
use crate::kriging::{config_ok, config_refused, is_bbox, Kriging, KrigingConfig, KrigingEstimate};
use crate::linalg::{lemma_reported_is_singular, regular, reports_pivot, solution, solve};
use crate::matrix::{holdable, Matrix};
use crate::text::{concat2, concat4, counts_text, decimal, digits};

verus! {

/// A linear trend in covariates, fitted by ordinary least squares: an intercept
/// and one slope per covariate.
#[derive(Debug, PartialEq, Eq)]
pub struct OlsTrend {
    coefficients: Vec<Double>,
}

/// Number of covariates: that of the first row.
pub open spec fn covariate_count(rows: Seq<Vec<Double>>) -> nat {
    if rows.len() == 0 {
        0
    } else {
        rows[0]@.len()
    }
}

/// All rows have `p` covariates.
pub open spec fn rows_even(rows: Seq<Vec<Double>>, p: nat) -> bool {
    forall|i: int| 0 <= i < rows.len() ==> (#[trigger] rows[i])@.len() == p
}

/// Entry of the design matrix: one, then the covariates.
pub open spec fn design(rows: Seq<Vec<Double>>, i: int, a: int) -> Double {
    if a == 0 {
        num(ONE)
    } else {
        rows[i]@[a - 1]
    }
}

/// Product of two columns of the design matrix over the first `n` rows.
pub open spec fn design_product<F: Fn(Op, Double, Double) -> Double>(
    ar: Arithmetic<F>,
    rows: Seq<Vec<Double>>,
    a: int,
    b: int,
    n: int,
) -> Double
    decreases n,
{
    if n <= 0 {
        num(0)
    } else {
        ar.plus(
            design_product(ar, rows, a, b, n - 1),
            ar.times(design(rows, n - 1, a), design(rows, n - 1, b)),
        )
    }
}

/// Product of a column of the design matrix with values over the first `n`
/// rows.
pub open spec fn design_values<F: Fn(Op, Double, Double) -> Double>(
    ar: Arithmetic<F>,
    rows: Seq<Vec<Double>>,
    values: Seq<Double>,
    a: int,
    n: int,
) -> Double
    decreases n,
{
    if n <= 0 {
        num(0)
    } else {
        ar.plus(
            design_values(ar, rows, values, a, n - 1),
            ar.times(design(rows, n - 1, a), values[n - 1]),
        )
    }
}

/// The normal matrix.
pub open spec fn ols_matrix<F: Fn(Op, Double, Double) -> Double>(
    ar: Arithmetic<F>,
    rows: Seq<Vec<Double>>,
) -> Seq<Seq<Double>> {
    let k = 1 + covariate_count(rows);
    Seq::new(
        k,
        |a: int|
            Seq::new(
                k,
                |b: int|
                    if a <= b {
                        design_product(ar, rows, a, b, rows.len() as int)
                    } else {
                        design_product(ar, rows, b, a, rows.len() as int)
                    },
            ),
    )
}

/// Right-hand side of the normal equations.
pub open spec fn ols_vector<F: Fn(Op, Double, Double) -> Double>(
    ar: Arithmetic<F>,
    rows: Seq<Vec<Double>>,
    values: Seq<Double>,
) -> Seq<Double> {
    Seq::new(
        1 + covariate_count(rows),
        |a: int| design_values(ar, rows, values, a, rows.len() as int),
    )
}

/// What fitting a trend gives.
pub open spec fn ols_outcome<F: Fn(Op, Double, Double) -> Double>(
    ar: Arithmetic<F>,
    rows: Seq<Vec<Double>>,
    values: Seq<Double>,
    r: Result<OlsTrend, GeostatError>,
) -> bool {
    let k = 1 + covariate_count(rows);
    if rows.len() != values.len() {
        r matches Err(e) && mismatch(
            e,
            digits(rows.len()) + " covariate rows vs "@ + digits(values.len()) + " values"@,
        )
    } else if !rows_even(rows, covariate_count(rows)) {
        r matches Err(e) && mismatch(e, "covariate rows differ in length"@)
    } else if rows.len() <= k {
        r matches Err(e) && insufficient(
            e,
            "OLS trend needs more than "@ + digits(k) + " observations, got "@ + digits(rows.len()),
        )
    } else if !regular(ar, ols_matrix(ar, rows)) {
        r matches Err(e) && reports_pivot(ar, ols_matrix(ar, rows), e)
    } else {
        r matches Ok(t) && solution(
            ar,
            ols_matrix(ar, rows),
            ols_vector(ar, rows, values),
            t.slopes(),
        )
    }
}

fn design_at(rows: &Vec<Vec<Double>>, i: usize, a: usize, Ghost(p): Ghost<nat>) -> (x: Double)
    requires
        i < rows.len(),
        rows_even(rows@, p),
        a <= p,
    ensures
        x == design(rows@, i as int, a as int),
{
    if a == 0 {
        num(ONE)
    } else {
        assert(rows@[i as int]@.len() == p);
        rows[i][a - 1]
    }
}

impl OlsTrend {
    /// Intercept and slopes.
    pub closed spec fn slopes(&self) -> Seq<Double> {
        self.coefficients@
    }

    /// There is an intercept.
    pub open spec fn well_formed(&self) -> bool {
        self.slopes().len() > 0
    }

    /// Trend at covariates: those without a slope are left out, and so are
    /// slopes without a covariate.
    pub open spec fn trend_at<F: Fn(Op, Double, Double) -> Double>(
        &self,
        ar: Arithmetic<F>,
        c: Seq<Double>,
    ) -> Double {
        let s = self.slopes();
        let n = if s.len() - 1 <= c.len() {
            s.len() - 1
        } else {
            c.len() as int
        };
        ar.dot_from(s[0], s.skip(1), c, n)
    }

    /// Fits the trend. `covariates[i]` holds the covariates of observation `i`;
    /// there must be more observations than coefficients.
    pub fn fit<F: Fn(Op, Double, Double) -> Double>(
        covariates: &Vec<Vec<Double>>,
        values: &Vec<Double>,
        ar: &Arithmetic<F>,
    ) -> (r: Result<
        Self,
        GeostatError,
    >)
        requires
            ar.total(),
            covariate_count(covariates@) < usize::MAX,
            holdable(1 + covariate_count(covariates@), 1 + covariate_count(covariates@)),
        ensures
            ols_outcome(*ar, covariates@, values@, r),
            r matches Ok(t) ==> t.slopes().len() == 1 + covariate_count(covariates@),
    {
        let n: usize = covariates.len();
        if n != values.len() {
            return Err(mismatched(counts_text(n, " covariate rows vs ", values.len(), " values")));
        }
        let p: usize = if n == 0 {
            0
        } else {
            covariates[0].len()
        };
        for i in 0..n
            invariant
                n == covariates.len(),
                n == values.len(),
                p == covariate_count(covariates@),
                forall|j: int| 0 <= j < i ==> (#[trigger] covariates@[j])@.len() == p,
        {
            if covariates[i].len() != p {
                assert(covariates@[i as int]@.len() != p);
                return Err(
                    GeostatError::DimensionMismatch(
                        Message::plain("covariate rows differ in length"),
                    ),
                );
            }
        }
        let k: usize = p + 1;
        if n <= k {
            return Err(
                GeostatError::InsufficientData(
                    Message::owned(
                        concat4(
                            "OLS trend needs more than ",
                            decimal(k).as_str(),
                            " observations, got ",
                            decimal(n).as_str(),
                        ),
                    ),
                ),
            );
        }
        let ghost lhs = ols_matrix(*ar, covariates@);
        let ghost rhs = ols_vector(*ar, covariates@, values@);
        let mut rows: Vec<Vec<Double>> = Vec::new();
        let mut b: Vec<Double> = Vec::new();
        for a in 0..k
            invariant
                ar.total(),
                n == covariates.len(),
                n == values.len(),
                p == covariate_count(covariates@),
                rows_even(covariates@, p as nat),
                k == p + 1,
                lhs == ols_matrix(*ar, covariates@),
                rhs == ols_vector(*ar, covariates@, values@),
                rows.len() == a,
                forall|j: int| 0 <= j < a ==> (#[trigger] rows@[j])@ == lhs[j],
                b@ =~= rhs.take(a as int),
        {
            let mut row: Vec<Double> = Vec::new();
            for c in 0..k
                invariant
                    ar.total(),
                    n == covariates.len(),
                    p == covariate_count(covariates@),
                    rows_even(covariates@, p as nat),
                    k == p + 1,
                    a < k,
                    lhs == ols_matrix(*ar, covariates@),
                    row@ =~= lhs[a as int].take(c as int),
            {
                let (lo, hi): (usize, usize) = if a <= c {
                    (a, c)
                } else {
                    (c, a)
                };
                let mut s: Double = Double::zero();
                for i in 0..n
                    invariant
                        ar.total(),
                        n == covariates.len(),
                        rows_even(covariates@, p as nat),
                        lo <= p,
                        hi <= p,
                        s == design_product(*ar, covariates@, lo as int, hi as int, i as int),
                {
                    s = ar.plus(
                        s,
                        ar.times(
                            design_at(covariates, i, lo, Ghost(p as nat)),
                            design_at(covariates, i, hi, Ghost(p as nat)),
                        ),
                    );
                }
                row.push(s);
            }
            assert(row@ =~= lhs[a as int]);
            rows.push(row);
            let mut s: Double = Double::zero();
            for i in 0..n
                invariant
                    ar.total(),
                    n == covariates.len(),
                    n == values.len(),
                    rows_even(covariates@, p as nat),
                    a <= p,
                    s == design_values(*ar, covariates@, values@, a as int, i as int),
            {
                s = ar.plus(
                    s,
                    ar.times(design_at(covariates, i, a, Ghost(p as nat)), values[i]),
                );
            }
            b.push(s);
        }
        assert forall|j: int| 0 <= j < k implies (#[trigger] rows@[j]).len() == k by {
            assert(rows@[j]@ == lhs[j]);
        }
        let m: Matrix = Matrix::from_rows(&rows, k);
        assert(m.rows() =~= lhs);
        assert(b@ =~= rhs);
        match solve(m, b, ar) {
            Err(e) => {
                proof {
                    lemma_reported_is_singular(*ar, lhs, e);
                }
                Err(e)
            },
            Ok(coefficients) => Ok(OlsTrend { coefficients }),
        }
    }

    /// Trend at a row of covariates.
    pub fn predict<F: Fn(Op, Double, Double) -> Double>(
        &self,
        covariates: &Vec<Double>,
        ar: &Arithmetic<F>,
    ) -> (m: Double)
        requires
            self.well_formed(),
            ar.total(),
        ensures
            m == self.trend_at(*ar, covariates@),
    {
        let slopes: usize = self.coefficients.len() - 1;
        let n: usize = if slopes <= covariates.len() {
            slopes
        } else {
            covariates.len()
        };
        let ghost rest = self.coefficients@.skip(1);
        let mut m: Double = self.coefficients[0];
        for i in 0..n
            invariant
                ar.total(),
                n <= covariates.len(),
                n < self.coefficients.len(),
                rest == self.coefficients@.skip(1),
                m == ar.dot_from(self.coefficients@[0], rest, covariates@, i as int),
        {
            assert(rest[i as int] == self.coefficients@[i + 1]);
            m = ar.plus(m, ar.times(self.coefficients[i + 1], covariates[i]));
        }
        m
    }

    /// Fitted coefficients, intercept first.
    pub fn coefficients(&self) -> (c: &Vec<Double>)
        ensures
            c@ == self.slopes(),
    {
        &self.coefficients
    }
}

/// Residuals of values from a trend in covariates.
pub open spec fn residuals_of<F: Fn(Op, Double, Double) -> Double>(
    ar: Arithmetic<F>,
    trend: &OlsTrend,
    values: Seq<Double>,
    rows: Seq<Vec<Double>>,
) -> Seq<Double> {
    Seq::new(values.len(), |i: int| ar.minus(values[i], trend.trend_at(ar, rows[i]@)))
}

/// The points with other values; `r` refuses values that are not finite.
pub open spec fn revalued<const D: usize>(
    places: Seq<[Double; D]>,
    values: Seq<Double>,
    r: Result<PointSet<D>, GeostatError>,
) -> bool {
    match r {
        Ok(p) => finite_values(values) && p.well_formed() && p.places() == places && p.attributes()
            == values,
        Err(e) => !finite_values(values) && invalid(e, "non-finite value"@),
    }
}

/// The points of `data` with other values.
pub fn revalue<const D: usize>(data: &PointSet<D>, values: Vec<Double>) -> (r: Result<
    PointSet<D>,
    GeostatError,
>)
    requires
        data.well_formed(),
        data.places().len() > 0,
        values@.len() == data.places().len(),
    ensures
        revalued(data.places(), values@, r),
{
    PointSet::new(copy_points(data.coords()), values)
}

/// What removing a trend in covariates gives.
pub open spec fn detrended<const D: usize, F: Fn(Op, Double, Double) -> Double>(
    ar: Arithmetic<F>,
    data: &PointSet<D>,
    rows: Seq<Vec<Double>>,
    r: Result<(PointSet<D>, OlsTrend), GeostatError>,
) -> bool {
    exists|fit: Result<OlsTrend, GeostatError>| #[trigger]
        ols_outcome(ar, rows, data.attributes(), fit) && match fit {
            Err(e) => r == Err::<(PointSet<D>, OlsTrend), GeostatError>(e),
            Ok(trend) => {
                let resid = residuals_of(ar, &trend, data.attributes(), rows);
                match r {
                    Ok(out) => out.1 == trend && revalued(
                        data.places(),
                        resid,
                        Ok::<PointSet<D>, GeostatError>(out.0),
                    ),
                    Err(e) => revalued(
                        data.places(),
                        resid,
                        Err::<PointSet<D>, GeostatError>(e),
                    ),
                }
            },
        }
}

/// Residuals of a linear trend in external covariates, as a point set at the
/// places of the data: `covariates[i]` holds the covariates of point `i`.
pub fn detrend_external<const D: usize, F: Fn(Op, Double, Double) -> Double>(
    data: &PointSet<D>,
    covariates: &Vec<Vec<Double>>,
    ar: &Arithmetic<F>,
) -> (r: Result<(PointSet<D>, OlsTrend), GeostatError>)
    requires
        ar.total(),
        data.well_formed(),
        data.places().len() > 0,
        covariate_count(covariates@) < usize::MAX,
        holdable(1 + covariate_count(covariates@), 1 + covariate_count(covariates@)),
    ensures
        detrended(*ar, data, covariates@, r),
{
    let fit: Result<OlsTrend, GeostatError> = OlsTrend::fit(covariates, data.values(), ar);
    assert(ols_outcome(*ar, covariates@, data.attributes(), fit));
    match fit {
        Err(e) => Err(e),
        Ok(trend) => {
            let ghost want = residuals_of(*ar, &trend, data.attributes(), covariates@);
            let mut resid: Vec<Double> = Vec::new();
            let n: usize = data.len();
            for i in 0..n
                invariant
                    ar.total(),
                    data.well_formed(),
                    trend.well_formed(),
                    n == data.places().len(),
                    n == covariates.len(),
                    want == residuals_of(*ar, &trend, data.attributes(), covariates@),
                    resid@ =~= want.take(i as int),
            {
                let m: Double = trend.predict(&covariates[i], ar);
                resid.push(ar.minus(data.value(i), m));
            }
            assert(resid@ =~= want);
            match revalue(data, resid) {
                Err(e) => Err(e),
                Ok(p) => Ok((p, trend)),
            }
        },
    }
}

/// Centered and scaled coordinates.
pub open spec fn normalized<F: Fn(Op, Double, Double) -> Double>(
    ar: Arithmetic<F>,
    p: Seq<Double>,
    min: Seq<Double>,
    max: Seq<Double>,
) -> Seq<Double> {
    let spread = widest(extents_of(ar, min, max), min.len() as int);
    let scale = if spread.is_positive() {
        spread
    } else {
        num(ONE)
    };
    Seq::new(
        p.len(),
        |d: int| ar.over(ar.minus(p[d], ar.times(num(HALF), ar.plus(min[d], max[d]))), scale),
    )
}

/// Products of coordinate `a` with those from `a` up to `n - 1`.
pub open spec fn products_with<F: Fn(Op, Double, Double) -> Double>(
    ar: Arithmetic<F>,
    u: Seq<Double>,
    a: int,
    n: int,
) -> Seq<Double> {
    Seq::new((n - a) as nat, |k: int| ar.times(u[a], u[a + k]))
}

/// Products of all pairs of coordinates whose first is below `a`.
pub open spec fn pair_products<F: Fn(Op, Double, Double) -> Double>(
    ar: Arithmetic<F>,
    u: Seq<Double>,
    a: int,
) -> Seq<Double>
    decreases a,
{
    if a <= 0 {
        Seq::empty()
    } else {
        pair_products(ar, u, a - 1) + products_with(ar, u, a - 1, u.len() as int)
    }
}

/// Polynomial terms of a point: its coordinates and, for degree 2, the products
/// of their pairs.
pub open spec fn polynomial_terms<F: Fn(Op, Double, Double) -> Double>(
    ar: Arithmetic<F>,
    u: Seq<Double>,
    degree: u8,
) -> Seq<Double> {
    if degree == 2 {
        u + pair_products(ar, u, u.len() as int)
    } else {
        u
    }
}

/// `rows` hold the polynomial terms of the points.
pub open spec fn polynomial_rows<const D: usize, F: Fn(Op, Double, Double) -> Double>(
    ar: Arithmetic<F>,
    places: Seq<[Double; D]>,
    min: Seq<Double>,
    max: Seq<Double>,
    degree: u8,
    rows: Seq<Vec<Double>>,
) -> bool {
    &&& rows.len() == places.len()
    &&& forall|i: int|
        0 <= i < rows.len() ==> (#[trigger] rows[i])@ == polynomial_terms(
            ar,
            normalized(ar, places[i]@, min, max),
            degree,
        )
}

/// What removing a polynomial trend gives.
pub open spec fn poly_detrended<const D: usize, F: Fn(Op, Double, Double) -> Double>(
    ar: Arithmetic<F>,
    data: &PointSet<D>,
    degree: u8,
    r: Result<(PointSet<D>, OlsTrend), GeostatError>,
) -> bool {
    if !(1 <= degree <= 2) {
        r matches Err(e) && invalid(
            e,
            "detrend degree must be 1 or 2, got "@ + digits(degree as nat),
        )
    } else {
        exists|min: [Double; D], max: [Double; D], rows: Seq<Vec<Double>>|
            #![trigger is_bbox(data.places(), min, max), detrended(ar, data, rows, r)]
            is_bbox(data.places(), min, max) && polynomial_rows(
                ar,
                data.places(),
                min@,
                max@,
                degree,
                rows,
            ) && detrended(ar, data, rows, r)
    }
}

/// Number of pair products below coordinate `a`.
proof fn lemma_pairs<F: Fn(Op, Double, Double) -> Double>(ar: Arithmetic<F>, u: Seq<Double>, a: int)
    requires
        0 <= a <= u.len(),
    ensures
        pair_products(ar, u, a).len() <= a * u.len(),
    decreases a,
{
    if a > 0 {
        lemma_pairs(ar, u, a - 1);
        assert((a - 1) * u.len() + u.len() == a * u.len()) by (nonlinear_arith);
    } else {
        assert(a * u.len() == 0) by (nonlinear_arith)
            requires
                a == 0,
        ;
    }
}

/// Residuals of a polynomial trend in the coordinates (degree 1 or 2), as a
/// point set at the places of the data. Coordinates are centered and scaled for
/// numerical conditioning.
pub fn detrend_polynomial<const D: usize, F: Fn(Op, Double, Double) -> Double>(
    data: &PointSet<D>,
    degree: u8,
    ar: &Arithmetic<F>,
) -> (r: Result<(PointSet<D>, OlsTrend), GeostatError>)
    requires
        ar.total(),
        data.well_formed(),
        data.places().len() > 0,
        1 + D + D * D < usize::MAX,
        holdable((1 + D + D * D) as nat, (1 + D + D * D) as nat),
    ensures
        poly_detrended(*ar, data, degree, r),
{
    if degree < 1 || degree > 2 {
        return Err(
            GeostatError::InvalidParameter(
                Message::owned(
                    concat2("detrend degree must be 1 or 2, got ", decimal(degree as usize).as_str()),
                ),
            ),
        );
    }
    let (min, max): ([Double; D], [Double; D]) = data.bbox();
    assert(is_bbox(data.places(), min, max));
    let mut spread: Double = Double::zero();
    for d in 0..D
        invariant
            ar.total(),
            spread == widest(extents_of(*ar, min@, max@), d as int),
    {
        spread = spread.max(ar.minus(max[d], min[d]));
    }
    let scale: Double = if spread.is_positive() {
        spread
    } else {
        num(ONE)
    };
    let n: usize = data.len();
    let mut rows: Vec<Vec<Double>> = Vec::new();
    for i in 0..n
        invariant
            ar.total(),
            data.well_formed(),
            n == data.places().len(),
            spread == widest(extents_of(*ar, min@, max@), D as int),
            scale == (if spread.is_positive() {
                spread
            } else {
                num(ONE)
            }),
            rows.len() == i,
            forall|j: int|
                0 <= j < i ==> (#[trigger] rows@[j])@ == polynomial_terms(
                    *ar,
                    normalized(*ar, data.places()[j]@, min@, max@),
                    degree,
                ),
    {
        let p: [Double; D] = data.coord(i);
        let ghost want = normalized(*ar, p@, min@, max@);
        let mut u: Vec<Double> = Vec::new();
        for d in 0..D
            invariant
                ar.total(),
                want == normalized(*ar, p@, min@, max@),
                spread == widest(extents_of(*ar, min@, max@), D as int),
                scale == (if spread.is_positive() {
                    spread
                } else {
                    num(ONE)
                }),
                u@ =~= want.take(d as int),
        {
            let center: Double = ar.times(num(HALF), ar.plus(min[d], max[d]));
            u.push(ar.over(ar.minus(p[d], center), scale));
        }
        assert(u@ =~= want);
        let mut row: Vec<Double> = crate::kriging::copy_values(&u);
        if degree == 2 {
            for a in 0..D
                invariant
                    ar.total(),
                    u@ == want,
                    want.len() == D,
                    row@ =~= want + pair_products(*ar, want, a as int),
            {
                let ghost before = row@;
                for b in a..D
                    invariant
                        ar.total(),
                        u@ == want,
                        want.len() == D,
                        a < D,
                        row@ =~= before + products_with(*ar, want, a as int, b as int),
                {
                    row.push(ar.times(u[a], u[b]));
                }
            }
        }
        assert(row@ =~= polynomial_terms(*ar, want, degree));
        rows.push(row);
    }
    proof {
        let u = normalized(*ar, data.places()[0]@, min@, max@);
        lemma_pairs(*ar, u, D as int);
        assert(rows@[0]@ == polynomial_terms(*ar, u, degree));
        crate::kriging::lemma_holdable(
            1 + covariate_count(rows@),
            (1 + D + D * D) as nat,
        );
    }
    let r: Result<(PointSet<D>, OlsTrend), GeostatError> = detrend_external(data, &rows, ar);
    assert(polynomial_rows(*ar, data.places(), min@, max@, degree, rows@));
    assert(detrended(*ar, data, rows@, r));
    r
}

/// Regression-kriging predictor: kriges the residuals of a trend given from
/// outside and adds the trend back at the target.
#[derive(Debug)]
pub struct RegressionKriging<const D: usize> {
    residuals: PointSet<D>,
}

/// Values less the trend.
pub open spec fn less_trend<F: Fn(Op, Double, Double) -> Double>(
    ar: Arithmetic<F>,
    values: Seq<Double>,
    trend: Seq<Double>,
) -> Seq<Double> {
    Seq::new(values.len(), |i: int| ar.minus(values[i], trend[i]))
}

/// The predictor cannot be built: why.
pub open spec fn kriging_refused<const D: usize>(
    config: KrigingConfig,
    has_power: bool,
    places: Seq<[Double; D]>,
    e: GeostatError,
) -> bool {
    if config.method is ExternalDrift {
        invalid(e, "external drift kriging requires Kriging::with_external_drift"@)
    } else {
        config_refused(config, has_power, places, e)
    }
}

/// The predictor can be built.
pub open spec fn kriging_ok<const D: usize>(
    config: KrigingConfig,
    has_power: bool,
    places: Seq<[Double; D]>,
) -> bool {
    &&& !(config.method is ExternalDrift)
    &&& config_ok(config, has_power, crate::data::has_duplicate(places), places.len())
}

/// `e` is the estimate of residuals with the trend added.
pub open spec fn with_trend<F: Fn(Op, Double, Double) -> Double>(
    ar: Arithmetic<F>,
    m: Double,
    e: KrigingEstimate,
) -> KrigingEstimate {
    KrigingEstimate { value: ar.plus(m, e.value), variance: e.variance, lagrange: e.lagrange }
}

/// The estimates at the targets are those of the predictor, with the trend
/// added.
pub open spec fn trended<'a, const D: usize, G: Fn([Double; D]) -> Double, F: Fn(Op, Double, Double) -> Double>(
    ar: Arithmetic<F>,
    k: Kriging<'a, D, G>,
    targets: Seq<[Double; D]>,
    trend: Seq<Double>,
    out: Seq<KrigingEstimate>,
) -> bool {
    exists|es: Seq<KrigingEstimate>| #[trigger]
        k.fills(ar, targets, es) && out == Seq::new(
            es.len(),
            |i: int| with_trend(ar, trend[i], es[i]),
        )
}

impl<const D: usize> RegressionKriging<D> {
    /// The residual points.
    pub closed spec fn rest(&self) -> PointSet<D> {
        self.residuals
    }

    /// Builds the predictor from the data and the trend at every data point.
    pub fn new<F: Fn(Op, Double, Double) -> Double>(
        data: &PointSet<D>,
        trend_at_data: &Vec<Double>,
        ar: &Arithmetic<F>,
    ) -> (r: Result<
        Self,
        GeostatError,
    >)
        requires
            ar.total(),
            data.well_formed(),
            data.places().len() > 0,
        ensures
            if trend_at_data@.len() != data.places().len() {
                r matches Err(e) && mismatch(
                    e,
                    digits(trend_at_data@.len()) + " trend values vs "@ + digits(
                        data.places().len(),
                    ) + " data points"@,
                )
            } else {
                let resid = less_trend(*ar, data.attributes(), trend_at_data@);
                match r {
                    Ok(k) => revalued(
                        data.places(),
                        resid,
                        Ok::<PointSet<D>, GeostatError>(k.rest()),
                    ),
                    Err(e) => revalued(
                        data.places(),
                        resid,
                        Err::<PointSet<D>, GeostatError>(e),
                    ),
                }
            },
    {
        if trend_at_data.len() != data.len() {
            return Err(
                mismatched(
                    counts_text(
                        trend_at_data.len(),
                        " trend values vs ",
                        data.len(),
                        " data points",
                    ),
                ),
            );
        }
        let ghost want = less_trend(*ar, data.attributes(), trend_at_data@);
        let n: usize = data.len();
        let mut resid: Vec<Double> = Vec::new();
        for i in 0..n
            invariant
                ar.total(),
                data.well_formed(),
                n == data.places().len(),
                n == trend_at_data.len(),
                want == less_trend(*ar, data.attributes(), trend_at_data@),
                resid@ =~= want.take(i as int),
        {
            resid.push(ar.minus(data.value(i), trend_at_data[i]));
        }
        assert(resid@ =~= want);
        match revalue(data, resid) {
            Err(e) => Err(e),
            Ok(residuals) => Ok(RegressionKriging { residuals }),
        }
    }

    /// The residual points, for fitting their variogram.
    pub fn residuals(&self) -> (p: &PointSet<D>)
        ensures
            *p == self.rest(),
    {
        &self.residuals
    }

    /// What prediction gives.
    pub open spec fn predicted<G: Fn([Double; D]) -> Double, F: Fn(Op, Double, Double) -> Double>(
        &self,
        ar: Arithmetic<F>,
        targets: Seq<[Double; D]>,
        trend: Seq<Double>,
        model: &Covariance<D, G>,
        config: KrigingConfig,
        r: Result<Vec<KrigingEstimate>, GeostatError>,
    ) -> bool {
        if trend.len() != targets.len() {
            r matches Err(e) && mismatch(
                e,
                digits(trend.len()) + " trend values vs "@ + digits(targets.len()) + " targets"@,
            )
        } else if !kriging_ok(config, model.traits.has_power, self.rest().places()) {
            r matches Err(e) && kriging_refused(
                config,
                model.traits.has_power,
                self.rest().places(),
                e,
            )
        } else {
            r matches Ok(out) && exists|k: Kriging<D, G>| #[trigger]
                k.built(ar, &self.rest(), model, config, Seq::empty(), Seq::empty()) && trended(
                    ar,
                    k,
                    targets,
                    trend,
                    out@,
                )
        }
    }

    /// Predicts at `targets`, adding the trend at each target to the kriged
    /// residual. The variance is that of the residual.
    pub fn predict<
        G: Fn([Double; D]) -> Double + Sync,
        F: Fn(Op, Double, Double) -> Double + Sync,
    >(
        &self,
        targets: &Vec<[Double; D]>,
        trend_at_targets: &Vec<Double>,
        residual_model: &Covariance<D, G>,
        config: &KrigingConfig,
        ar: &Arithmetic<F>,
    ) -> (r: Result<Vec<KrigingEstimate>, GeostatError>)
        requires
            Kriging::usable(*ar, &self.rest(), residual_model, config.method),
        ensures
            self.predicted(*ar, targets@, trend_at_targets@, residual_model, *config, r),
    {
        if trend_at_targets.len() != targets.len() {
            return Err(
                mismatched(
                    counts_text(
                        trend_at_targets.len(),
                        " trend values vs ",
                        targets.len(),
                        " targets",
                    ),
                ),
            );
        }
        let kriging: Kriging<D, G> = match Kriging::new(&self.residuals, residual_model, *config, ar) {
            Err(e) => {
                return Err(e);
            },
            Ok(k) => k,
        };
        let es: Vec<KrigingEstimate> = kriging.predict_many(targets, ar);
        assert(kriging.fills(*ar, targets@, es@));
        let ghost want = Seq::new(
            es@.len(),
            |i: int| with_trend(*ar, trend_at_targets@[i], es@[i]),
        );
        let mut out: Vec<KrigingEstimate> = Vec::new();
        for i in 0..es.len()
            invariant
                ar.total(),
                es@.len() == trend_at_targets@.len(),
                want == Seq::new(
                    es@.len(),
                    |i: int| with_trend(*ar, trend_at_targets@[i], es@[i]),
                ),
                out@ =~= want.take(i as int),
        {
            let e: KrigingEstimate = es[i];
            out.push(
                KrigingEstimate {
                    value: ar.plus(trend_at_targets[i], e.value),
                    variance: e.variance,
                    lagrange: e.lagrange,
                },
            );
        }
        assert(out@ =~= want);
        assert(trended(*ar, kriging, targets@, trend_at_targets@, out@));
        Ok(out)
    }
}

} // verus!

//! The courses of the commands: which requests are refused and with what text, what
//! a request that is not refused goes on with, and the computations between the
//! files that are read and those that are written.

use vstd::prelude::*;

use crate::arith::{num, Arithmetic, MINUS_ZERO, Op, TWO};
use crate::cokriging::{cokriging_ok, cokriging_refused, searchable, CoKriging, CoKrigingConfig};
use crate::collocated::{estimate_collocated_stats, stats_outcome, PairStats};
use crate::covariance::Covariance;
use crate::data::{
    finite_values, has_duplicate, highest, is_same_place, lowest, same_place, PointSet,
};
use crate::double::{Double, HIDDEN};
use crate::error::{invalid, invalid_of, mismatch, GeostatError};
use crate::grid::Grid2D;
use crate::io_utils::{
    column, csv_text, join_lines, line3, line4, line_texts, show_number, shown, shows,
};
use crate::kriging::{
    config_ok, config_refused, copy_values, errors_ok, Kriging, KrigingConfig,
};
use crate::lmc::Lmc;
use crate::marginal::{greatest_of, least_of};
use crate::options::{numbers_in, parse_floats, refuse, text_view, Refusal};
use crate::order::{sort_positions, stable_order};
use crate::raster::{finite_of, RasterGrid};
use crate::regression::OlsTrend;
use crate::table::{numbers, parses};
use crate::text::{concat3, concat5, counts_text, decimal, decimal_wide, digits, texts_of};
use crate::trans::{lognormal_kriging, lognormal_outcome, LognormalEstimate};
use crate::transform::NormalScore;

verus! {

/// Bit pattern of the fraction of the diagonal at which a scan of cell sizes starts.
pub const FIFTY: u64 = 0x4049_0000_0000_0000;

/// Bit pattern of the fraction of the diagonal at which a scan of cell sizes ends.
pub const FIVE: u64 = 0x4014_0000_0000_0000;

/// What a variogram is asked for with.
#[derive(Debug, Clone, Copy, PartialEq, Eq, Structural)]
pub struct VariogramRequest {
    /// Fit anisotropy.
    pub anisotropic: bool,
    /// Fit by maximum likelihood.
    pub mle: bool,
    /// Fit with a trend.
    pub trend: bool,
    /// Take residuals of a polynomial.
    pub detrend: bool,
    /// Take residuals of a drift.
    pub detrend_cols: bool,
    /// The points lie in space.
    pub z_col: bool,
}

/// What a variogram is computed of.
#[derive(Debug, Clone, Copy, PartialEq, Eq, Structural)]
pub enum VariogramCourse {
    /// Points in space.
    Space,
    /// Residuals of a drift in the plane.
    Drift,
    /// Points in the plane.
    Plane,
}

/// The course of a request for a variogram.
pub fn plan_variogram(q: VariogramRequest) -> (r: Result<VariogramCourse, Refusal>)
    ensures
        if q.anisotropic && q.mle {
            r matches Err(e) && e.says("--mle and --anisotropic cannot be combined yet"@)
        } else if q.trend && !q.mle {
            r matches Err(e) && e.says(
                "--trend requires --mle (it selects REML/trend maximum likelihood)"@,
            )
        } else if q.detrend && q.detrend_cols {
            r matches Err(e) && e.says("--detrend and --detrend-cols are mutually exclusive"@)
        } else if q.z_col && q.anisotropic {
            r matches Err(e) && e.says("--anisotropic is 2-D only (drop --z-col)"@)
        } else if q.z_col && q.detrend_cols {
            r matches Err(e) && e.says("--detrend-cols is 2-D only (drop --z-col)"@)
        } else if q.z_col {
            r == Ok::<VariogramCourse, Refusal>(VariogramCourse::Space)
        } else if q.detrend_cols {
            r == Ok::<VariogramCourse, Refusal>(VariogramCourse::Drift)
        } else {
            r == Ok::<VariogramCourse, Refusal>(VariogramCourse::Plane)
        },
{
    if q.anisotropic && q.mle {
        return Err(refuse("--mle and --anisotropic cannot be combined yet"));
    }
    if q.trend && !q.mle {
        return Err(
            refuse("--trend requires --mle (it selects REML/trend maximum likelihood)"),
        );
    }
    if q.detrend && q.detrend_cols {
        return Err(refuse("--detrend and --detrend-cols are mutually exclusive"));
    }
    if q.z_col {
        if q.anisotropic {
            return Err(refuse("--anisotropic is 2-D only (drop --z-col)"));
        }
        if q.detrend_cols {
            return Err(refuse("--detrend-cols is 2-D only (drop --z-col)"));
        }
        return Ok(VariogramCourse::Space);
    }
    if q.detrend_cols {
        return Ok(VariogramCourse::Drift);
    }
    Ok(VariogramCourse::Plane)
}

/// How a model is fitted to a variogram.
#[derive(Debug, Clone, Copy, PartialEq, Eq, Structural)]
pub enum FitCourse {
    /// By maximum likelihood, with a trend of this degree where there is one.
    Likelihood(Option<u8>),
    /// By weighted least squares.
    LeastSquares,
    /// Not at all.
    NoFit,
}

/// How a model is fitted, and whether it can be written. A madogram is not on the
/// scale of a variogram, so no model is fitted to it.
pub fn plan_fit(
    mle: bool,
    trend: Option<u8>,
    fit: bool,
    madogram: bool,
    model_out: bool,
) -> (r: Result<FitCourse, Refusal>)
    ensures
        if mle {
            r == Ok::<FitCourse, Refusal>(FitCourse::Likelihood(trend))
        } else if fit && madogram {
            r matches Err(e) && e.says(
                "--fit cannot be combined with --estimator madogram (it is not on the scale of gamma)"@,
            )
        } else if fit {
            r == Ok::<FitCourse, Refusal>(FitCourse::LeastSquares)
        } else if model_out {
            r matches Err(e) && e.says("--model-out requires --fit or --mle"@)
        } else {
            r == Ok::<FitCourse, Refusal>(FitCourse::NoFit)
        },
{
    if mle {
        return Ok(FitCourse::Likelihood(trend));
    }
    if fit {
        if madogram {
            return Err(
                refuse(
                    "--fit cannot be combined with --estimator madogram (it is not on the scale of gamma)",
                ),
            );
        }
        return Ok(FitCourse::LeastSquares);
    }
    if model_out {
        return Err(refuse("--model-out requires --fit or --mle"));
    }
    Ok(FitCourse::NoFit)
}

/// Heading of a fit by maximum likelihood with conditioning on `m` points.
pub fn likelihood_label(m: usize, trend: Option<u8>) -> (s: String)
    ensures
        s@ == match trend {
            Some(degree) => "Vecchia REML fit (m = "@ + digits(m as nat) + ", trend degree "@
                + digits(degree as nat) + ")"@,
            None => "Vecchia ML fit (m = "@ + digits(m as nat) + ")"@,
        },
{
    match trend {
        Some(degree) => concat5(
            "Vecchia REML fit (m = ",
            decimal(m).as_str(),
            ", trend degree ",
            decimal(degree as usize).as_str(),
            ")",
        ),
        None => concat3("Vecchia ML fit (m = ", decimal(m).as_str(), ")"),
    }
}

/// The points at the place of `p`.
pub open spec fn at_place<const D: usize>(coords: Seq<[Double; D]>, p: [Double; D]) -> Seq<[Double; D]> {
    coords.filter(|q: [Double; D]| same_place(q, p))
}

/// Number of pairs of points that share their place: each point pairs with those before
/// it at its place.
pub open spec fn coincident_pairs<const D: usize>(coords: Seq<[Double; D]>) -> nat
    decreases coords.len(),
{
    if coords.len() == 0 {
        0
    } else {
        coincident_pairs(coords.drop_last()) + at_place(coords.drop_last(), coords.last()).len()
    }
}

proof fn lemma_at_place<const D: usize>(coords: Seq<[Double; D]>, p: [Double; D])
    ensures
        coords.len() > 0 ==> at_place(coords, p).len() == at_place(coords.drop_last(), p).len()
            + (if same_place(coords.last(), p) {
            1nat
        } else {
            0nat
        }),
        at_place(coords, p).len() <= coords.len(),
        at_place(coords, p).len() == 0 <==> forall|i: int|
            0 <= i < coords.len() ==> !same_place(#[trigger] coords[i], p),
    decreases coords.len(),
{
    reveal(Seq::filter);
    if coords.len() > 0 {
        let rest = coords.drop_last();
        lemma_at_place(rest, p);
        if at_place(coords, p).len() == 0 {
            assert forall|i: int| 0 <= i < coords.len() implies !same_place(
                #[trigger] coords[i],
                p,
            ) by {
                if i < rest.len() {
                    assert(!same_place(rest[i], p));
                }
            }
        } else if forall|i: int| 0 <= i < coords.len() ==> !same_place(#[trigger] coords[i], p) {
            assert forall|i: int| 0 <= i < rest.len() implies !same_place(#[trigger] rest[i], p) by {
                assert(!same_place(coords[i], p));
            }
            assert(!same_place(coords[coords.len() - 1], p));
        }
    }
}

/// There are coincident pairs where two of the points share their coordinates, and only
/// there.
pub proof fn coincident_pairs_are_duplicates<const D: usize>(coords: Seq<[Double; D]>)
    ensures
        coincident_pairs(coords) > 0 <==> has_duplicate(coords),
        coincident_pairs(coords) <= coords.len() * coords.len(),
    decreases coords.len(),
{
    if coords.len() > 0 {
        let rest = coords.drop_last();
        let n = coords.len();
        coincident_pairs_are_duplicates(rest);
        lemma_at_place(rest, coords.last());
        assert(rest.len() * rest.len() + rest.len() <= n * n) by (nonlinear_arith)
            requires
                n == rest.len() + 1,
        ;
        if coincident_pairs(coords) > 0 {
            if coincident_pairs(rest) > 0 {
                let (i, j) = choose|i: int, j: int|
                    0 <= i < j < rest.len() && same_place(#[trigger] rest[i], #[trigger] rest[j]);
                assert(same_place(coords[i], coords[j]));
            } else {
                let i = choose|i: int|
                    0 <= i < rest.len() && same_place(#[trigger] rest[i], coords.last());
                assert(same_place(coords[i], coords[n - 1]));
            }
        }
        if has_duplicate(coords) {
            let (i, j) = choose|i: int, j: int|
                0 <= i < j < coords.len() && same_place(#[trigger] coords[i], #[trigger] coords[j]);
            if j < rest.len() {
                assert(same_place(rest[i], rest[j]));
            } else {
                assert(same_place(rest[i], coords.last()));
            }
        }
    }
}

/// Counts the pairs of points at the same place, which no lag of a variogram holds.
pub fn count_coincident<const D: usize>(data: &PointSet<D>) -> (n: u128)
    requires
        data.well_formed(),
    ensures
        n == coincident_pairs(data.places()),
        n > 0 <==> has_duplicate(data.places()),
{
    let coords: &Vec<[Double; D]> = data.coords();
    let mut n: u128 = 0;
    for j in 0..coords.len()
        invariant
            n == coincident_pairs(coords@.take(j as int)),
    {
        let ghost before = coords@.take(j as int);
        let p: [Double; D] = coords[j];
        let mut here: usize = 0;
        for i in 0..j
            invariant
                j < coords.len(),
                before == coords@.take(j as int),
                p == coords@[j as int],
                here == at_place(before.take(i as int), p).len(),
                here <= i,
        {
            assert(before.take(i + 1).drop_last() =~= before.take(i as int));
            proof {
                lemma_at_place(before.take(i + 1), p);
            }
            if is_same_place(&coords[i], &p) {
                here = here + 1;
            }
        }
        proof {
            assert(before.take(j as int) =~= before);
            assert(coords@.take(j + 1).drop_last() =~= before);
            coincident_pairs_are_duplicates(before);
            assert(j as nat * j as nat + j as nat <= u128::MAX) by (nonlinear_arith)
                requires
                    j <= 0xFFFF_FFFF_FFFF_FFFFu64,
            ;
        }
        n = n + here as u128;
    }
    proof {
        assert(coords@.take(coords@.len() as int) =~= coords@);
        coincident_pairs_are_duplicates(coords@);
    }
    n
}

/// The note on coincident pairs of a variogram, where there are any.
pub fn coincident_note<const D: usize>(data: &PointSet<D>) -> (r: Option<String>)
    requires
        data.well_formed(),
    ensures
        match r {
            Some(s) => has_duplicate(data.places()) && s@ == "Note: "@ + digits(
                coincident_pairs(data.places()),
            ) + " coincident pair(s) of points, in no lag"@,
            None => !has_duplicate(data.places()),
        },
{
    let n: u128 = count_coincident(data);
    if n == 0 {
        return None;
    }
    Some(concat3("Note: ", decimal_wide(n).as_str(), " coincident pair(s) of points, in no lag"))
}

/// Refuses a variogram map in space.
pub fn plan_vmap(z_col: bool) -> (r: Result<(), Refusal>)
    ensures
        match r {
            Ok(_) => !z_col,
            Err(e) => z_col && e.says("the variogram map is 2-D only (drop --z-col)"@),
        },
{
    if z_col {
        return Err(refuse("the variogram map is 2-D only (drop --z-col)"));
    }
    Ok(())
}

/// What kriging is asked for with.
#[derive(Debug, Clone, Copy, PartialEq, Eq, Structural)]
pub struct KrigeRequest {
    /// One error variance for all data.
    pub error: bool,
    /// An error variance for each datum.
    pub error_col: bool,
    /// External drift.
    pub drift_cols: bool,
    /// Lognormal kriging.
    pub lognormal: bool,
    /// The points lie in space.
    pub z_col: bool,
    /// Vecchia prediction.
    pub vecchia: bool,
    /// Block kriging.
    pub block: bool,
    /// Targets are given.
    pub targets: bool,
    /// The cells are written as a raster.
    pub raster: bool,
    /// The output is a GeoPackage.
    pub gpkg_output: bool,
}

/// Where kriging predicts.
#[derive(Debug, Clone, Copy, PartialEq, Eq, Structural)]
pub enum KrigeCourse {
    /// At given targets in space.
    Space,
    /// At given targets with external drift.
    Drift,
    /// At the cells of a grid.
    Cells,
}

impl KrigeRequest {
    /// The data have error variances.
    pub open spec fn has_error(self) -> bool {
        self.error || self.error_col
    }
}

/// The course of a request for kriging.
pub fn plan_krige(q: KrigeRequest) -> (r: Result<KrigeCourse, Refusal>)
    ensures
        if q.has_error() && (q.drift_cols || q.lognormal || q.z_col) {
            r matches Err(e) && e.says(
                "--error/--error-col support plain 2-D (block) kriging only for now"@,
            )
        } else if q.vecchia && (q.has_error() || q.drift_cols || q.lognormal || q.block
            || q.z_col) {
            r matches Err(e) && e.says(
                "--vecchia supports plain 2-D point kriging only (simple-kriging mean)"@,
            )
        } else if q.z_col && (q.drift_cols || q.block) {
            r matches Err(e) && e.says(
                "3-D mode supports plain point kriging only (no --drift-cols/--block)"@,
            )
        } else if q.z_col && !q.targets {
            r matches Err(e) && e.says("3-D kriging requires --targets (CSV with x, y, z)"@)
        } else if q.z_col {
            r == Ok::<KrigeCourse, Refusal>(KrigeCourse::Space)
        } else if q.drift_cols && !q.targets {
            r matches Err(e) && e.says(
                "--drift-cols requires --targets (CSV with x, y and drift columns)"@,
            )
        } else if q.drift_cols {
            r == Ok::<KrigeCourse, Refusal>(KrigeCourse::Drift)
        } else if q.targets {
            r matches Err(e) && e.says(
                "--targets requires --drift-cols or --z-col (plain 2-D kriging predicts a grid)"@,
            )
        } else if q.raster && !q.gpkg_output {
            r matches Err(e) && e.says("--raster requires a .gpkg output"@)
        } else {
            r == Ok::<KrigeCourse, Refusal>(KrigeCourse::Cells)
        },
{
    let has_error: bool = q.error || q.error_col;
    if has_error && (q.drift_cols || q.lognormal || q.z_col) {
        return Err(
            refuse("--error/--error-col support plain 2-D (block) kriging only for now"),
        );
    }
    if q.vecchia && (has_error || q.drift_cols || q.lognormal || q.block || q.z_col) {
        return Err(
            refuse("--vecchia supports plain 2-D point kriging only (simple-kriging mean)"),
        );
    }
    if q.z_col {
        if q.drift_cols || q.block {
            return Err(
                refuse("3-D mode supports plain point kriging only (no --drift-cols/--block)"),
            );
        }
        if !q.targets {
            return Err(refuse("3-D kriging requires --targets (CSV with x, y, z)"));
        }
        return Ok(KrigeCourse::Space);
    }
    if q.drift_cols {
        if !q.targets {
            return Err(
                refuse("--drift-cols requires --targets (CSV with x, y and drift columns)"),
            );
        }
        return Ok(KrigeCourse::Drift);
    }
    if q.targets {
        return Err(
            refuse("--targets requires --drift-cols or --z-col (plain 2-D kriging predicts a grid)"),
        );
    }
    if q.raster && !q.gpkg_output {
        return Err(refuse("--raster requires a .gpkg output"));
    }
    Ok(KrigeCourse::Cells)
}

/// How the cells of a grid are predicted.
#[derive(Debug, Clone, Copy, PartialEq, Eq, Structural)]
pub enum CellCourse {
    /// Lognormal kriging.
    Lognormal,
    /// Vecchia prediction.
    Vecchia,
    /// Kriging of points or blocks.
    Kriging,
}

/// How the cells of a grid are predicted.
pub fn plan_cells(q: KrigeRequest) -> (r: Result<CellCourse, Refusal>)
    ensures
        if q.lognormal && (q.block || q.drift_cols) {
            r matches Err(e) && e.says(
                "--lognormal cannot be combined with --block or --drift-cols"@,
            )
        } else if q.lognormal {
            r == Ok::<CellCourse, Refusal>(CellCourse::Lognormal)
        } else if q.vecchia {
            r == Ok::<CellCourse, Refusal>(CellCourse::Vecchia)
        } else {
            r == Ok::<CellCourse, Refusal>(CellCourse::Kriging)
        },
{
    if q.lognormal {
        if q.block || q.drift_cols {
            return Err(refuse("--lognormal cannot be combined with --block or --drift-cols"));
        }
        return Ok(CellCourse::Lognormal);
    }
    if q.vecchia {
        return Ok(CellCourse::Vecchia);
    }
    Ok(CellCourse::Kriging)
}

/// Whole number that a double is cut to, none below zero.
pub open spec fn cut(x: Double) -> usize {
    let n = x.saturated(x.truncated());
    if n < 0 {
        0
    } else {
        n as usize
    }
}

/// Size and discretization of blocks, or the text of the refusal.
pub open spec fn blocks_of<P: Fn(&str) -> Option<Double>>(
    parse: P,
    block: Seq<char>,
    discr: Seq<char>,
) -> Result<
    (Seq<Double>, Seq<Double>),
    Seq<char>,
> {
    match numbers_in(parse, block) {
        Err(e) => Err(e),
        Ok(size) => match numbers_in(parse, discr) {
            Err(e) => Err(e),
            Ok(n) => if size.len() != 2 || n.len() != 2 {
                Err("--block and --block-discr take two comma-separated values"@)
            } else {
                Ok((size, n))
            },
        },
    }
}

/// The points of a block can be counted.
pub open spec fn block_fits<P: Fn(&str) -> Option<Double>>(
    parse: P,
    block: Option<Seq<char>>,
    discr: Seq<char>,
) -> bool {
    block is Some ==> (blocks_of(parse, block->0, discr) matches Ok(b) ==> {
        let nx = cut(b.1[0]);
        let ny = cut(b.1[1]);
        &&& b.1[0].saturated(b.1[0].truncated()) < 2 * HIDDEN
        &&& b.1[1].saturated(b.1[1].truncated()) < 2 * HIDDEN
        &&& nx * ny < 2 * HIDDEN
        &&& nx * ny <= usize::MAX
        &&& nx <= usize::MAX
        &&& b.1[0].saturated(b.1[0].truncated()) <= usize::MAX
        &&& b.1[1].saturated(b.1[1].truncated()) <= usize::MAX
    })
}

fn parse_blocks<P: Fn(&str) -> Option<Double>>(block: &str, discr: &str, parse: &P) -> (r: Result<
    ([Double; 2], [Double; 2]),
    Refusal,
>)
    requires
        parses(*parse),
    ensures
        match blocks_of(*parse, block@, discr@) {
            Ok(b) => r matches Ok(c) && c.0@ == b.0 && c.1@ == b.1,
            Err(e) => r matches Err(f) && f.says(e),
        },
{
    let size: Vec<Double> = match parse_floats(block, parse) {
        Err(e) => {
            return Err(e);
        },
        Ok(v) => v,
    };
    let n: Vec<Double> = match parse_floats(discr, parse) {
        Err(e) => {
            return Err(e);
        },
        Ok(v) => v,
    };
    if size.len() != 2 || n.len() != 2 {
        return Err(refuse("--block and --block-discr take two comma-separated values"));
    }
    let a: [Double; 2] = [size[0], size[1]];
    let b: [Double; 2] = [n[0], n[1]];
    assert(a@ =~= size@);
    assert(b@ =~= n@);
    Ok((a, b))
}

fn find_cut(x: Double) -> (n: usize)
    requires
        x.saturated(x.truncated()) <= usize::MAX,
    ensures
        n == cut(x),
{
    let k: i64 = x.trunc();
    if k < 0 {
        0
    } else {
        k as usize
    }
}

/// The error variances, where there are any.
pub open spec fn errors_view(errors: Option<Vec<Double>>) -> Option<Seq<Double>> {
    match errors {
        Some(v) => Some(v@),
        None => None,
    }
}

/// The predictor is built from the data, with error variances where there are any.
pub open spec fn kriging_made<'a, G: Fn([Double; 2]) -> Double, F: Fn(Op, Double, Double) -> Double>(
    ar: Arithmetic<F>,
    data: &'a PointSet<2>,
    model: &'a Covariance<2, G>,
    config: KrigingConfig,
    errors: Option<Seq<Double>>,
    k: Kriging<'a, 2, G>,
) -> bool {
    &&& !(config.method is ExternalDrift)
    &&& config_ok(
        config,
        model.traits.has_power,
        has_duplicate(data.places()),
        data.places().len(),
    )
    &&& match errors {
        Some(es) => es.len() == data.places().len() && errors_ok(es) && k.built(
            ar,
            data,
            model,
            config,
            Seq::empty(),
            es,
        ),
        None => k.built(ar, data, model, config, Seq::empty(), Seq::empty()),
    }
}

/// Why no predictor is built.
pub open spec fn kriging_denied<G: Fn([Double; 2]) -> Double>(
    data: &PointSet<2>,
    model: &Covariance<2, G>,
    config: KrigingConfig,
    errors: Option<Seq<Double>>,
    e: GeostatError,
) -> bool {
    match errors {
        Some(es) => if config.method is ExternalDrift {
            invalid(e, "measurement error with external drift is not supported yet"@)
        } else if es.len() != data.places().len() {
            mismatch(
                e,
                digits(es.len()) + " error variances vs "@ + digits(data.places().len())
                    + " data points"@,
            )
        } else if !errors_ok(es) {
            invalid(e, "measurement-error variances must be finite and non-negative"@)
        } else {
            config_refused(config, model.traits.has_power, data.places(), e)
        },
        None => if config.method is ExternalDrift {
            invalid(e, "external drift kriging requires Kriging::with_external_drift"@)
        } else {
            config_refused(config, model.traits.has_power, data.places(), e)
        },
    }
}

/// Why blocks are refused.
pub open spec fn blocks_denied(size: Seq<Double>, nx: usize, ny: usize, e: GeostatError) -> bool {
    if nx == 0 || ny == 0 {
        invalid(e, "block discretization needs at least 1 point per axis"@)
    } else {
        &&& !size[0].is_positive() || !size[1].is_positive()
        &&& invalid_of(e, "block size must be positive, got [{:?}, {:?}]"@, size)
    }
}

/// What a predictor gives for the cells: of points, or of blocks where they are
/// asked for.
pub open spec fn cells_of<'a, G: Fn([Double; 2]) -> Double + Sync, F: Fn(Op, Double, Double) -> Double, P: Fn(&str) -> Option<Double>>(
    ar: Arithmetic<F>,
    parse: P,
    k: Kriging<'a, 2, G>,
    grid: Grid2D,
    block: Option<Seq<char>>,
    discr: Seq<char>,
    r: Result<(Vec<Double>, Vec<Double>), Refusal>,
) -> bool {
    match block {
        None => r matches Ok(c) && k.maps_grid(ar, grid, (c.0@, c.1@)),
        Some(spec) => match blocks_of(parse, spec, discr) {
            Err(e) => r matches Err(f) && f.says(e),
            Ok(b) => {
                let nx = cut(b.1[0]);
                let ny = cut(b.1[1]);
                match r {
                    Ok(c) => {
                        &&& nx > 0 && ny > 0
                        &&& b.0[0].is_positive() && b.0[1].is_positive()
                        &&& k.maps_blocks(ar, grid, b.0, seq![nx, ny], (c.0@, c.1@))
                    },
                    Err(Refusal::Core(e)) => blocks_denied(b.0, nx, ny, e),
                    Err(_) => false,
                }
            },
        },
    }
}

/// What kriging of the cells gives.
pub open spec fn cells_kriged<'a, G: Fn([Double; 2]) -> Double + Sync, F: Fn(Op, Double, Double) -> Double, P: Fn(&str) -> Option<Double>>(
    ar: Arithmetic<F>,
    parse: P,
    data: &'a PointSet<2>,
    model: &'a Covariance<2, G>,
    config: KrigingConfig,
    errors: Option<Seq<Double>>,
    grid: Grid2D,
    block: Option<Seq<char>>,
    discr: Seq<char>,
    r: Result<(Vec<Double>, Vec<Double>), Refusal>,
) -> bool {
    ||| r matches Err(Refusal::Core(e)) && kriging_denied(data, model, config, errors, e)
    ||| exists|k: Kriging<'a, 2, G>| #[trigger]
        kriging_made(ar, data, model, config, errors, k) && cells_of(
            ar,
            parse,
            k,
            grid,
            block,
            discr,
            r,
        )
}

/// Krigs the cells of a grid: points or, where they are asked for, blocks. With error
/// variances, kriging predicts the underlying signal.
pub fn krige_cells<'a, G: Fn([Double; 2]) -> Double + Sync, F: Fn(Op, Double, Double) -> Double + Sync, P: Fn(&str) -> Option<Double>>(
    data: &'a PointSet<2>,
    errors: Option<Vec<Double>>,
    model: &'a Covariance<2, G>,
    config: KrigingConfig,
    grid: &Grid2D,
    block: Option<&str>,
    discr: &str,
    parse: &P,
    ar: &Arithmetic<F>,
) -> (r: Result<(Vec<Double>, Vec<Double>), Refusal>)
    requires
        Kriging::usable(*ar, data, model, config.method),
        grid.listable(),
        parses(*parse),
        block_fits(*parse, text_view(block), discr@),
    ensures
        cells_kriged(
            *ar,
            *parse,
            data,
            model,
            config,
            errors_view(errors),
            *grid,
            text_view(block),
            discr@,
            r,
        ),
{
    let ghost given = errors_view(errors);
    let built: Result<Kriging<'a, 2, G>, GeostatError> = match errors {
        Some(es) => Kriging::with_measurement_error(data, model, config, es, ar),
        None => Kriging::new(data, model, config, ar),
    };
    let k: Kriging<'a, 2, G> = match built {
        Err(e) => {
            assert(kriging_denied(data, model, config, given, e));
            return Err(Refusal::Core(e));
        },
        Ok(k) => k,
    };
    assert(kriging_made(*ar, data, model, config, given, k));
    let spec_text: &str = match block {
        None => {
            return Ok(k.predict_grid(grid, ar));
        },
        Some(s) => s,
    };
    let (size, n): ([Double; 2], [Double; 2]) = match parse_blocks(spec_text, discr, parse) {
        Err(e) => {
            return Err(e);
        },
        Ok(b) => b,
    };
    let counts: [usize; 2] = [find_cut(n[0]), find_cut(n[1])];
    assert(counts@ =~= seq![cut(n@[0]), cut(n@[1])]);
    match k.predict_block_grid(grid, size, counts, ar) {
        Err(e) => Err(Refusal::Core(e)),
        Ok(c) => Ok(c),
    }
}

/// Values and logarithmic variances of lognormal estimates, as two lists.
pub fn split_lognormal(es: &Vec<LognormalEstimate>) -> (r: (Vec<Double>, Vec<Double>))
    ensures
        r.0@ == Seq::new(es@.len(), |i: int| es@[i].value),
        r.1@ == Seq::new(es@.len(), |i: int| es@[i].log_variance),
{
    let mut values: Vec<Double> = Vec::new();
    let mut variances: Vec<Double> = Vec::new();
    for i in 0..es.len()
        invariant
            values@ =~= Seq::new(es@.len(), |i: int| es@[i].value).take(i as int),
            variances@ =~= Seq::new(es@.len(), |i: int| es@[i].log_variance).take(i as int),
    {
        values.push(es[i].value);
        variances.push(es[i].log_variance);
    }
    assert(values@ =~= Seq::new(es@.len(), |i: int| es@[i].value));
    assert(variances@ =~= Seq::new(es@.len(), |i: int| es@[i].log_variance));
    (values, variances)
}

/// What lognormal kriging of the cells gives.
pub open spec fn cells_unlogged<G: Fn([Double; 2]) -> Double + Sync, F: Fn(Op, Double, Double) -> Double>(
    ar: Arithmetic<F>,
    data: &PointSet<2>,
    model: &Covariance<2, G>,
    config: KrigingConfig,
    grid: Grid2D,
    r: Result<(Vec<Double>, Vec<Double>), Refusal>,
) -> bool {
    exists|centers: Seq<[Double; 2]>, e: Result<Vec<LognormalEstimate>, GeostatError>| #[trigger]
        lognormal_outcome(ar, data, centers, model, config, e) && grid.are_centers(ar, centers)
            && match e {
            Err(x) => r == Err::<(Vec<Double>, Vec<Double>), Refusal>(Refusal::Core(x)),
            Ok(es) => r matches Ok(c) && c.0@ == Seq::new(es@.len(), |i: int| es@[i].value)
                && c.1@ == Seq::new(es@.len(), |i: int| es@[i].log_variance),
        }
}

/// Lognormal kriging of the cells of a grid: values, and variances of the
/// logarithms.
pub fn krige_lognormal_cells<G: Fn([Double; 2]) -> Double + Sync, F: Fn(Op, Double, Double) -> Double + Sync>(
    data: &PointSet<2>,
    model: &Covariance<2, G>,
    config: KrigingConfig,
    grid: &Grid2D,
    ar: &Arithmetic<F>,
) -> (r: Result<(Vec<Double>, Vec<Double>), Refusal>)
    requires
        Kriging::usable(*ar, data, model, config.method),
        grid.listable(),
    ensures
        cells_unlogged(*ar, data, model, config, *grid, r),
{
    let centers: Vec<[Double; 2]> = grid.centers(ar);
    let e: Result<Vec<LognormalEstimate>, GeostatError> = lognormal_kriging(
        data,
        &centers,
        model,
        &config,
        ar,
    );
    assert(lognormal_outcome(*ar, data, centers@, model, config, e));
    match e {
        Err(x) => Err(Refusal::Core(x)),
        Ok(es) => Ok(split_lognormal(&es)),
    }
}

/// One error variance for each datum.
pub fn constant_errors(error: Double, n: usize) -> (out: Vec<Double>)
    ensures
        out@ == Seq::new(n as nat, |i: int| error),
{
    let mut out: Vec<Double> = Vec::new();
    for i in 0..n
        invariant
            out@ =~= Seq::new(i as nat, |k: int| error),
    {
        out.push(error);
    }
    out
}

/// The measurement-error variances of `n` data: those of a column where there is
/// one, whatever the constant, else the constant for each datum, else none.
pub fn measurement_errors(
    constant: Option<Double>,
    column: Option<&Vec<Double>>,
    n: usize,
) -> (v: Vec<Double>)
    ensures
        v@ == (match column {
            Some(c) => c@,
            None => match constant {
                Some(e) => Seq::new(n as nat, |i: int| e),
                None => Seq::empty(),
            },
        }),
{
    match column {
        Some(c) => copy_values(c),
        None => match constant {
            Some(e) => constant_errors(e, n),
            None => Vec::new(),
        },
    }
}

/// First number of each row.
pub fn first_column(rows: &Vec<Vec<Double>>) -> (out: Vec<Double>)
    requires
        forall|i: int| 0 <= i < rows@.len() ==> (#[trigger] rows@[i])@.len() > 0,
    ensures
        out@ == column(numbers(rows@), 0),
{
    let mut out: Vec<Double> = Vec::new();
    for i in 0..rows.len()
        invariant
            forall|k: int| 0 <= k < rows@.len() ==> (#[trigger] rows@[k])@.len() > 0,
            out@ =~= column(numbers(rows@), 0).take(i as int),
    {
        assert(rows@[i as int]@.len() > 0);
        out.push(rows[i][0]);
    }
    assert(out@ =~= column(numbers(rows@), 0));
    out
}

/// How many values are no numbers.
pub open spec fn nans(values: Seq<Double>) -> nat
    decreases values.len(),
{
    if values.len() == 0 {
        0
    } else {
        nans(values.drop_last()) + if values.last().is_nan() {
            1nat
        } else {
            0nat
        }
    }
}

/// How many values are no numbers.
pub fn count_nan(values: &Vec<Double>) -> (n: usize)
    ensures
        n == nans(values@),
{
    let mut n: usize = 0;
    for i in 0..values.len()
        invariant
            n == nans(values@.take(i as int)),
            n <= i,
    {
        assert(values@.take(i + 1).drop_last() =~= values@.take(i as int));
        if values[i].is_nan() {
            n = n + 1;
        }
    }
    assert(values@.take(values.len() as int) =~= values@);
    n
}

/// Least and greatest of the finite values, where there are any.
pub fn finite_range(values: &Vec<Double>) -> (r: Option<(Double, Double)>)
    ensures
        r == (if finite_of(values@).len() == 0 {
            None::<(Double, Double)>
        } else {
            Some((least_of(finite_of(values@)), greatest_of(finite_of(values@))))
        }),
{
    let mut min: Double = Double::infinity();
    let mut max: Double = Double::infinity().neg();
    let mut any: bool = false;
    for i in 0..values.len()
        invariant
            min == least_of(finite_of(values@.take(i as int))),
            max == greatest_of(finite_of(values@.take(i as int))),
            any == (finite_of(values@.take(i as int)).len() > 0),
    {
        let ghost before = finite_of(values@.take(i as int));
        assert(values@.take(i + 1).drop_last() =~= values@.take(i as int));
        if values[i].is_finite() {
            assert(before.push(values@[i as int]).drop_last() =~= before);
            min = min.min(values[i]);
            max = max.max(values[i]);
            any = true;
        }
    }
    assert(values@.take(values.len() as int) =~= values@);
    if any {
        Some((min, max))
    } else {
        None
    }
}

/// Corners of the cells of a grid: least x, least y, greatest x, greatest y.
pub fn raster_bbox<F: Fn(Op, Double, Double) -> Double>(grid: &Grid2D, ar: &Arithmetic<F>) -> (b: [Double; 4])
    requires
        ar.total(),
        grid.listable(),
    ensures
        b@ == seq![
            grid.x0,
            grid.y0,
            ar.plus(grid.x0, ar.times(Double::count(grid.nx as nat), grid.dx)),
            ar.plus(grid.y0, ar.times(Double::count(grid.ny as nat), grid.dy)),
        ],
{
    let b: [Double; 4] = [
        grid.x0,
        grid.y0,
        ar.plus(grid.x0, ar.times(Double::from_count(grid.nx), grid.dx)),
        ar.plus(grid.y0, ar.times(Double::from_count(grid.ny), grid.dy)),
    ];
    assert(b@ =~= seq![
        grid.x0,
        grid.y0,
        ar.plus(grid.x0, ar.times(Double::count(grid.nx as nat), grid.dx)),
        ar.plus(grid.y0, ar.times(Double::count(grid.ny as nat), grid.dy)),
    ]);
    b
}

/// What co-kriging is asked for with.
#[derive(Debug, Clone, Copy, PartialEq, Eq, Structural)]
pub struct CokrigeRequest {
    /// Fewest neighbors.
    pub min_neighbors: bool,
    /// Most neighbors in a sector.
    pub octant: bool,
    /// The secondary variable has its own file.
    pub secondary_input: bool,
    /// The model is given.
    pub lmc: bool,
}

/// Where the secondary variable comes from.
#[derive(Debug, Clone, Copy, PartialEq, Eq, Structural)]
pub enum CokrigeCourse {
    /// Its own places.
    Heterotopic,
    /// The places of the primary variable.
    Collocated,
}

/// The course of a request for co-kriging.
pub fn plan_cokrige(q: CokrigeRequest) -> (r: Result<CokrigeCourse, Refusal>)
    ensures
        if q.min_neighbors || q.octant {
            r matches Err(e) && e.says(
                "--min-neighbors/--octant are not supported by this command yet"@,
            )
        } else if q.secondary_input && !q.lmc {
            r matches Err(e) && e.says(
                "--secondary-input (heterotopic co-kriging) requires --lmc: automatic LMC fitting needs collocated data"@,
            )
        } else if q.secondary_input {
            r == Ok::<CokrigeCourse, Refusal>(CokrigeCourse::Heterotopic)
        } else {
            r == Ok::<CokrigeCourse, Refusal>(CokrigeCourse::Collocated)
        },
{
    if q.min_neighbors || q.octant {
        return Err(refuse("--min-neighbors/--octant are not supported by this command yet"));
    }
    if q.secondary_input {
        if !q.lmc {
            return Err(
                refuse(
                    "--secondary-input (heterotopic co-kriging) requires --lmc: automatic LMC fitting needs collocated data",
                ),
            );
        }
        return Ok(CokrigeCourse::Heterotopic);
    }
    Ok(CokrigeCourse::Collocated)
}

/// The secondary variable at the places of the primary one: the first further number
/// of each point.
pub fn collocated_secondary(primary: &PointSet<2>, extras: &Vec<Vec<Double>>) -> (r: Result<
    PointSet<2>,
    Refusal,
>)
    requires
        primary.well_formed(),
        primary.places().len() > 0,
        extras@.len() == primary.places().len(),
        forall|i: int| 0 <= i < extras@.len() ==> (#[trigger] extras@[i])@.len() > 0,
    ensures
        match r {
            Ok(p) => p.well_formed() && p.places() == primary.places() && p.attributes() == column(
                numbers(extras@),
                0,
            ),
            Err(Refusal::Core(e)) => !finite_values(column(numbers(extras@), 0)) && invalid(
                e,
                "non-finite value"@,
            ),
            Err(_) => false,
        },
{
    match PointSet::new(crate::data::copy_points(primary.coords()), first_column(extras)) {
        Err(e) => Err(Refusal::Core(e)),
        Ok(p) => Ok(p),
    }
}

/// The co-kriging predictor of these two variables.
pub open spec fn cokriging_made<'a, G: Fn([Double; 2]) -> Double>(
    primary: &'a PointSet<2>,
    secondary: &'a PointSet<2>,
    lmc: &'a Lmc<2, G>,
    config: CoKrigingConfig,
    k: CoKriging<'a, 2, G>,
) -> bool {
    &&& cokriging_ok(2, lmc.variables(), config)
    &&& k.well_formed()
    &&& k.setting().datasets@ == seq![primary, secondary]
    &&& k.setting().lmc == lmc
    &&& k.setting().config == config
}

/// What a co-kriging predictor gives for the cells: of points, or of blocks where
/// they are asked for.
pub open spec fn cocells_of<'a, G: Fn([Double; 2]) -> Double + Sync, F: Fn(Op, Double, Double) -> Double, P: Fn(&str) -> Option<Double>>(
    ar: Arithmetic<F>,
    parse: P,
    k: CoKriging<'a, 2, G>,
    grid: Grid2D,
    block: Option<Seq<char>>,
    discr: Seq<char>,
    r: Result<(Vec<Double>, Vec<Double>), Refusal>,
) -> bool {
    match block {
        None => r matches Ok(c) && k.maps_grid(ar, grid, (c.0@, c.1@)),
        Some(spec) => match blocks_of(parse, spec, discr) {
            Err(e) => r matches Err(f) && f.says(e),
            Ok(b) => {
                let nx = cut(b.1[0]);
                let ny = cut(b.1[1]);
                match r {
                    Ok(c) => {
                        &&& nx > 0 && ny > 0
                        &&& b.0[0].is_positive() && b.0[1].is_positive()
                        &&& k.maps_blocks(ar, grid, b.0, seq![nx, ny], (c.0@, c.1@))
                    },
                    Err(Refusal::Core(e)) => blocks_denied(b.0, nx, ny, e),
                    Err(_) => false,
                }
            },
        },
    }
}

/// What co-kriging of the cells gives.
pub open spec fn cells_cokriged<'a, G: Fn([Double; 2]) -> Double + Sync, F: Fn(Op, Double, Double) -> Double, P: Fn(&str) -> Option<Double>>(
    ar: Arithmetic<F>,
    parse: P,
    primary: &'a PointSet<2>,
    secondary: &'a PointSet<2>,
    lmc: &'a Lmc<2, G>,
    config: CoKrigingConfig,
    grid: Grid2D,
    block: Option<Seq<char>>,
    discr: Seq<char>,
    r: Result<(Vec<Double>, Vec<Double>), Refusal>,
) -> bool {
    if !cokriging_ok(2, lmc.variables(), config) {
        r matches Err(Refusal::Core(e)) && cokriging_refused(2, lmc.variables(), config, e)
    } else {
        exists|k: CoKriging<'a, 2, G>| #[trigger]
            cokriging_made(primary, secondary, lmc, config, k) && cocells_of(
                ar,
                parse,
                k,
                grid,
                block,
                discr,
                r,
            )
    }
}

/// The pairs of points of a block can be counted.
pub open spec fn block_pairs_fit<P: Fn(&str) -> Option<Double>>(
    parse: P,
    block: Option<Seq<char>>,
    discr: Seq<char>,
) -> bool {
    block is Some ==> (blocks_of(parse, block->0, discr) matches Ok(b) ==> {
        let n = cut(b.1[0]) * cut(b.1[1]);
        n * n < 2 * HIDDEN && n * n <= usize::MAX
    })
}

/// Co-kriges the cells of a grid: points or, where they are asked for, blocks.
pub fn cokrige_cells<'a, G: Fn([Double; 2]) -> Double + Sync, F: Fn(Op, Double, Double) -> Double + Sync, P: Fn(&str) -> Option<Double>>(
    primary: &'a PointSet<2>,
    secondary: &'a PointSet<2>,
    lmc: &'a Lmc<2, G>,
    config: CoKrigingConfig,
    grid: &Grid2D,
    block: Option<&str>,
    discr: &str,
    parse: &P,
    ar: &Arithmetic<F>,
) -> (r: Result<(Vec<Double>, Vec<Double>), Refusal>)
    requires
        searchable(seq![primary, secondary]),
        lmc.well_formed(),
        lmc.total(),
        ar.ieee(),
        grid.listable(),
        parses(*parse),
        block_fits(*parse, text_view(block), discr@),
        block_pairs_fit(*parse, text_view(block), discr@),
    ensures
        cells_cokriged(
            *ar,
            *parse,
            primary,
            secondary,
            lmc,
            config,
            *grid,
            text_view(block),
            discr@,
            r,
        ),
{
    let mut sets: Vec<&'a PointSet<2>> = Vec::new();
    sets.push(primary);
    sets.push(secondary);
    assert(sets@ =~= seq![primary, secondary]);
    let k: CoKriging<'a, 2, G> = match CoKriging::new(sets, lmc, config) {
        Err(e) => {
            return Err(Refusal::Core(e));
        },
        Ok(k) => k,
    };
    assert(cokriging_made(primary, secondary, lmc, config, k));
    let spec_text: &str = match block {
        None => {
            return Ok(k.predict_grid(grid, ar));
        },
        Some(s) => s,
    };
    let (size, n): ([Double; 2], [Double; 2]) = match parse_blocks(spec_text, discr, parse) {
        Err(e) => {
            return Err(e);
        },
        Ok(b) => b,
    };
    let counts: [usize; 2] = [find_cut(n[0]), find_cut(n[1])];
    assert(counts@ =~= seq![cut(n@[0]), cut(n@[1])]);
    match k.predict_block_grid(grid, size, counts, ar) {
        Err(e) => Err(Refusal::Core(e)),
        Ok(c) => Ok(c),
    }
}

/// Where the statistics of a collocated pair of variables come from.
#[derive(Debug, Clone, Copy, PartialEq, Eq, Structural)]
pub enum StatsSource {
    /// They are given.
    Given,
    /// They are estimated from a column with the secondary variable.
    Column,
}

/// The course of a request for collocated cokriging.
pub fn plan_collocated(
    stats: bool,
    secondary_col: bool,
    mm2: bool,
    secondary_model: bool,
) -> (r: Result<StatsSource, Refusal>)
    ensures
        if mm2 && !secondary_model {
            r matches Err(e) && e.says("--markov mm2 requires --secondary-model"@)
        } else if stats {
            r == Ok::<StatsSource, Refusal>(StatsSource::Given)
        } else if secondary_col {
            r == Ok::<StatsSource, Refusal>(StatsSource::Column)
        } else {
            r matches Err(e) && e.says("one of --stats and --secondary-col is required"@)
        },
{
    if mm2 && !secondary_model {
        return Err(refuse("--markov mm2 requires --secondary-model"));
    }
    if stats {
        return Ok(StatsSource::Given);
    }
    if secondary_col {
        return Ok(StatsSource::Column);
    }
    Err(refuse("one of --stats and --secondary-col is required"))
}

/// What five numbers say of a pair of variables.
pub open spec fn stats_in<P: Fn(&str) -> Option<Double>>(parse: P, spec: Seq<char>) -> Result<
    PairStats,
    Seq<char>,
> {
    match numbers_in(parse, spec) {
        Err(e) => Err(e),
        Ok(v) => if v.len() == 5 {
            Ok(
                PairStats {
                    mean1: v[0],
                    mean2: v[1],
                    rho12: v[2],
                    sigma1: v[3],
                    sigma2: v[4],
                },
            )
        } else {
            Err("--stats takes \"mean1,mean2,rho12,sigma1,sigma2\", got '"@ + spec + "'"@)
        },
    }
}

/// The statistics of a pair of variables: both means, the correlation and both
/// standard deviations, separated by commas.
pub fn parse_stats<P: Fn(&str) -> Option<Double>>(spec: &str, parse: &P) -> (r: Result<PairStats, Refusal>)
    requires
        parses(*parse),
    ensures
        match stats_in(*parse, spec@) {
            Ok(s) => r == Ok::<PairStats, Refusal>(s),
            Err(e) => r matches Err(f) && f.says(e),
        },
{
    let v: Vec<Double> = match parse_floats(spec, parse) {
        Ok(v) => v,
        Err(e) => {
            return Err(e);
        },
    };
    if v.len() != 5 {
        return Err(
            Refusal::Request(
                concat3("--stats takes \"mean1,mean2,rho12,sigma1,sigma2\", got '", spec, "'"),
                None,
            ),
        );
    }
    Ok(PairStats { mean1: v[0], mean2: v[1], rho12: v[2], sigma1: v[3], sigma2: v[4] })
}

/// Whether these are the statistics estimated from collocated pairs, or the reason
/// why there are none.
pub open spec fn pair_estimated<F: Fn(Op, Double, Double) -> Double>(
    ar: Arithmetic<F>,
    primary: Seq<Double>,
    secondary: Seq<Double>,
    r: Result<PairStats, Refusal>,
) -> bool {
    match r {
        Ok(s) => {
            &&& s.mean1 == ar.average_of(primary)
            &&& s.mean2 == ar.average_of(secondary)
            &&& stats_outcome(ar, primary, secondary, Ok((s.rho12, s.sigma1, s.sigma2)))
        },
        Err(Refusal::Core(e)) => stats_outcome(ar, primary, secondary, Err(e)),
        Err(_) => false,
    }
}

/// The statistics of a pair of variables, estimated from collocated values.
pub fn estimate_pair<F: Fn(Op, Double, Double) -> Double>(
    primary: &Vec<Double>,
    secondary: &Vec<Double>,
    ar: &Arithmetic<F>,
) -> (r: Result<PairStats, Refusal>)
    requires
        ar.total(),
        primary.len() < 2 * HIDDEN,
    ensures
        pair_estimated(*ar, primary@, secondary@, r),
{
    match estimate_collocated_stats(primary, secondary, ar) {
        Err(e) => Err(Refusal::Core(e)),
        Ok((rho12, sigma1, sigma2)) => Ok(
            PairStats {
                mean1: ar.mean(primary),
                mean2: ar.mean(secondary),
                rho12,
                sigma1,
                sigma2,
            },
        ),
    }
}

/// What cross-validation is asked for with.
#[derive(Debug, Clone, Copy, PartialEq, Eq, Structural)]
pub struct CvRequest {
    /// The points lie in space.
    pub z_col: bool,
    /// External drift.
    pub drift_cols: bool,
    /// Folds in place of single points.
    pub folds: bool,
}

/// What is cross-validated.
#[derive(Debug, Clone, Copy, PartialEq, Eq, Structural)]
pub enum CvCourse {
    /// Points in space.
    Space,
    /// Points in the plane with external drift.
    Drift,
    /// Points in the plane.
    Plane,
}

/// The course of a request for cross-validation.
pub fn plan_cv(q: CvRequest) -> (r: Result<CvCourse, Refusal>)
    ensures
        if q.z_col && q.drift_cols {
            r matches Err(e) && e.says("3-D cross-validation does not support --drift-cols"@)
        } else if q.z_col {
            r == Ok::<CvCourse, Refusal>(CvCourse::Space)
        } else if q.drift_cols && q.folds {
            r matches Err(e) && e.says(
                "--folds (k-fold) is not yet supported with --drift-cols"@,
            )
        } else if q.drift_cols {
            r == Ok::<CvCourse, Refusal>(CvCourse::Drift)
        } else {
            r == Ok::<CvCourse, Refusal>(CvCourse::Plane)
        },
{
    if q.z_col {
        if q.drift_cols {
            return Err(refuse("3-D cross-validation does not support --drift-cols"));
        }
        return Ok(CvCourse::Space);
    }
    if q.drift_cols {
        if q.folds {
            return Err(refuse("--folds (k-fold) is not yet supported with --drift-cols"));
        }
        return Ok(CvCourse::Drift);
    }
    Ok(CvCourse::Plane)
}

/// How points are left out of a cross-validation.
#[derive(Debug, Clone, Copy, PartialEq, Eq, Structural)]
pub enum CvMethod {
    /// One by one.
    LeaveOneOut,
    /// In folds.
    KFold,
    /// In blocks of space.
    Blocks,
}

/// Heading of a report on a cross-validation of `n` points.
pub fn cv_label(method: CvMethod, n: usize) -> (s: String)
    ensures
        s@ == (match method {
            CvMethod::LeaveOneOut => "Leave-one-out cross-validation ("@,
            CvMethod::KFold => "K-fold cross-validation ("@,
            CvMethod::Blocks => "Spatial block cross-validation ("@,
        }) + digits(n as nat) + " points):"@,
{
    let name: &str = match method {
        CvMethod::LeaveOneOut => "Leave-one-out cross-validation (",
        CvMethod::KFold => "K-fold cross-validation (",
        CvMethod::Blocks => "Spatial block cross-validation (",
    };
    concat3(name, decimal(n).as_str(), " points):")
}

/// Refuses a GeoPackage where a third coordinate or further columns are read.
pub fn check_table_input(gpkg: bool) -> (r: Result<(), Refusal>)
    ensures
        match r {
            Ok(_) => !gpkg,
            Err(e) => gpkg && e.says(
                "3-D mode and covariate columns require a CSV input (GeoPackage is not supported here yet)"@,
            ),
        },
{
    if gpkg {
        return Err(
            refuse(
                "3-D mode and covariate columns require a CSV input (GeoPackage is not supported here yet)",
            ),
        );
    }
    Ok(())
}

/// Refuses to write residuals of points in space, once they are reported.
pub fn check_cv_output(course: CvCourse, output: bool) -> (r: Result<(), Refusal>)
    ensures
        match r {
            Ok(_) => !(course is Space && output),
            Err(e) => course is Space && output && e.says(
                "--output is not supported in 3-D mode yet"@,
            ),
        },
{
    match course {
        CvCourse::Space => {
            if output {
                return Err(refuse("--output is not supported in 3-D mode yet"));
            }
            Ok(())
        },
        _ => Ok(()),
    }
}

/// Refuses search limits that indicator kriging does not have.
pub fn plan_ik(min_neighbors: bool, octant: bool) -> (r: Result<(), Refusal>)
    ensures
        match r {
            Ok(_) => !min_neighbors && !octant,
            Err(e) => (min_neighbors || octant) && e.says(
                "--min-neighbors/--octant are not supported by this command yet"@,
            ),
        },
{
    if min_neighbors || octant {
        return Err(refuse("--min-neighbors/--octant are not supported by this command yet"));
    }
    Ok(())
}

/// Refuses indicator models that are not one for each cutoff.
pub fn check_model_count(models: usize, cutoffs: usize) -> (r: Result<(), Refusal>)
    ensures
        match r {
            Ok(_) => models == cutoffs,
            Err(e) => models != cutoffs && e.says(
                digits(models as nat) + " models for "@ + digits(cutoffs as nat) + " cutoffs"@,
            ),
        },
{
    if models != cutoffs {
        return Err(
            Refusal::Request(counts_text(models, " models for ", cutoffs, " cutoffs"), None),
        );
    }
    Ok(())
}

/// Where indicator models come from.
#[derive(Debug, Clone, Copy, PartialEq, Eq, Structural)]
pub enum IndicatorModels {
    /// From files.
    Given,
    /// One model, fitted at the median cutoff, for all cutoffs.
    Median,
    /// One model fitted at each cutoff.
    Each,
}

/// Where indicator models come from: files before one shared model.
pub fn choose_indicator_models(given: bool, mik: bool) -> (r: IndicatorModels)
    ensures
        r == (if given {
            IndicatorModels::Given
        } else if mik {
            IndicatorModels::Median
        } else {
            IndicatorModels::Each
        }),
{
    if given {
        IndicatorModels::Given
    } else if mik {
        IndicatorModels::Median
    } else {
        IndicatorModels::Each
    }
}

/// Points with the normal scores of their values.
pub open spec fn points_scored<F: Fn(Op, Double, Double) -> Double>(
    ar: Arithmetic<F>,
    data: &PointSet<2>,
    ns: NormalScore,
    r: Result<PointSet<2>, Refusal>,
) -> bool {
    exists|scores: Seq<Double>|
        scores.len() == data.attributes().len() && #[trigger] all_scored(
            ar,
            data.attributes(),
            ns,
            scores,
        ) && match r {
            Ok(p) => p.well_formed() && p.places() == data.places() && p.attributes() == scores,
            Err(Refusal::Core(e)) => !finite_values(scores) && invalid(e, "non-finite value"@),
            Err(_) => false,
        }
}

/// `scores` are the normal scores of the values.
pub open spec fn all_scored<F: Fn(Op, Double, Double) -> Double>(
    ar: Arithmetic<F>,
    values: Seq<Double>,
    ns: NormalScore,
    scores: Seq<Double>,
) -> bool {
    forall|i: int| 0 <= i < scores.len() ==> ns.scored(ar, values[i], #[trigger] scores[i])
}

/// Points with the normal scores of their values.
pub fn score_points<F: Fn(Op, Double, Double) -> Double>(
    data: &PointSet<2>,
    ns: &NormalScore,
    ar: &Arithmetic<F>,
) -> (r: Result<
    PointSet<2>,
    Refusal,
>)
    requires
        ar.total(),
        data.well_formed(),
        data.places().len() > 0,
        ns.well_formed(),
    ensures
        points_scored(*ar, data, *ns, r),
{
    let n: usize = data.values().len();
    let mut scores: Vec<Double> = Vec::new();
    for i in 0..n
        invariant
            ar.total(),
            data.well_formed(),
            ns.well_formed(),
            n == data.attributes().len(),
            scores@.len() == i,
            all_scored(*ar, data.attributes(), *ns, scores@),
    {
        let s: Double = ns.transform(data.value(i), ar);
        scores.push(s);
    }
    assert(all_scored(*ar, data.attributes(), *ns, scores@));
    match PointSet::new(crate::data::copy_points(data.coords()), scores) {
        Err(e) => Err(Refusal::Core(e)),
        Ok(p) => Ok(p),
    }
}

/// Mean of the values under declustering weights.
pub fn declustered_mean<F: Fn(Op, Double, Double) -> Double>(
    weights: &Vec<Double>,
    values: &Vec<Double>,
    ar: &Arithmetic<F>,
) -> (m: Double)
    requires
        ar.total(),
        weights@.len() == values@.len(),
        values@.len() < 2 * HIDDEN,
    ensures
        m == ar.over(
            ar.dot_from(num(MINUS_ZERO), weights@, values@, values@.len() as int),
            Double::count(values@.len()),
        ),
{
    ar.over(
        ar.dot(num(MINUS_ZERO), weights, values, values.len()),
        Double::from_count(values.len()),
    )
}

/// Length of the diagonal between two corners.
pub open spec fn diagonal<F: Fn(Op, Double, Double) -> Double>(
    ar: Arithmetic<F>,
    min: Seq<Double>,
    max: Seq<Double>,
) -> Double {
    ar.sqrt(
        ar.plus(ar.square(ar.minus(max[0], min[0])), ar.square(ar.minus(max[1], min[1]))),
    )
}

/// The corners of the data.
pub open spec fn spans(data: &PointSet<2>, min: Seq<Double>, max: Seq<Double>) -> bool {
    &&& forall|d: int| 0 <= d < 2 ==> lowest(#[trigger] min[d], data.places(), d)
    &&& forall|d: int| 0 <= d < 2 ==> highest(#[trigger] max[d], data.places(), d)
}

/// What cell sizes a scan goes through: those given, otherwise a fiftieth and a fifth
/// of the diagonal of the data.
pub open spec fn scan_range<F: Fn(Op, Double, Double) -> Double>(
    ar: Arithmetic<F>,
    data: &PointSet<2>,
    min_size: Option<Double>,
    max_size: Option<Double>,
    r: (Double, Double),
) -> bool {
    exists|min: Seq<Double>, max: Seq<Double>| #[trigger]
        spans(data, min, max) && r.0 == (match min_size {
            Some(s) => s,
            None => ar.over(diagonal(ar, min, max), num(FIFTY)),
        }) && r.1 == match max_size {
            Some(s) => s,
            None => ar.over(diagonal(ar, min, max), num(FIVE)),
        }
}

fn find_diagonal<F: Fn(Op, Double, Double) -> Double>(
    min: &[Double; 2],
    max: &[Double; 2],
    ar: &Arithmetic<F>,
) -> (d: Double)
    requires
        ar.total(),
    ensures
        d == diagonal(*ar, min@, max@),
{
    ar.sqrt(
        ar.plus(ar.square(ar.minus(max[0], min[0])), ar.square(ar.minus(max[1], min[1]))),
    )
}

/// Cell sizes between which a scan goes.
pub fn scan_sizes<F: Fn(Op, Double, Double) -> Double>(
    data: &PointSet<2>,
    min_size: Option<Double>,
    max_size: Option<Double>,
    ar: &Arithmetic<F>,
) -> (r: (Double, Double))
    requires
        ar.total(),
        data.well_formed(),
        data.places().len() > 0,
    ensures
        scan_range(*ar, data, min_size, max_size, r),
{
    let (min, max): ([Double; 2], [Double; 2]) = data.bbox();
    assert(spans(data, min@, max@));
    let d: Double = find_diagonal(&min, &max, ar);
    let lo: Double = match min_size {
        Some(s) => s,
        None => ar.over(d, num(FIFTY)),
    };
    let hi: Double = match max_size {
        Some(s) => s,
        None => ar.over(d, num(FIVE)),
    };
    (lo, hi)
}

/// What lag width a map has: that given, otherwise half the diagonal of the data over
/// the number of lags.
pub open spec fn lag_width_of<F: Fn(Op, Double, Double) -> Double>(
    ar: Arithmetic<F>,
    data: &PointSet<2>,
    given: Option<Double>,
    n_lags: nat,
    w: Double,
) -> bool {
    match given {
        Some(g) => w == g,
        None => exists|min: Seq<Double>, max: Seq<Double>| #[trigger]
            spans(data, min, max) && w == ar.over(
                ar.over(diagonal(ar, min, max), num(TWO)),
                Double::count(n_lags),
            ),
    }
}

/// Lag width of a variogram map.
pub fn choose_lag_width<F: Fn(Op, Double, Double) -> Double>(
    data: &PointSet<2>,
    given: Option<Double>,
    n_lags: usize,
    ar: &Arithmetic<F>,
) -> (w: Double)
    requires
        ar.total(),
        data.well_formed(),
        data.places().len() > 0,
        n_lags < 2 * HIDDEN,
    ensures
        lag_width_of(*ar, data, given, n_lags as nat, w),
{
    match given {
        Some(g) => g,
        None => {
            let (min, max): ([Double; 2], [Double; 2]) = data.bbox();
            assert(spans(data, min@, max@));
            ar.over(
                ar.over(find_diagonal(&min, &max, ar), num(TWO)),
                Double::from_count(n_lags),
            )
        },
    }
}

/// A cell of a variogram map.
#[derive(Debug, Clone, Copy, PartialEq, Eq, Structural)]
pub struct MapCell {
    /// Lag along x.
    pub hx: Double,
    /// Lag along y.
    pub hy: Double,
    /// Semivariance.
    pub gamma: Double,
    /// Number of pairs.
    pub n_pairs: usize,
}

/// A line of a variogram map; a semivariance that is not finite is left blank.
pub open spec fn map_line<S: Fn(Double) -> String>(show: S, c: MapCell) -> Seq<Seq<char>> {
    seq![
        shown(show, c.hx),
        shown(show, c.hy),
        if c.gamma.is_finite() {
            shown(show, c.gamma)
        } else {
            Seq::empty()
        },
        digits(c.n_pairs as nat),
    ]
}

/// The lines of a variogram map: the header, then the cells.
pub open spec fn map_lines<S: Fn(Double) -> String>(show: S, cells: Seq<MapCell>) -> Seq<Seq<Seq<char>>> {
    seq![seq!["hx"@, "hy"@, "gamma"@, "n_pairs"@]] + Seq::new(
        cells.len(),
        |i: int| map_line(show, cells[i]),
    )
}

/// A variogram map as CSV text.
pub fn write_vmap_csv<S: Fn(Double) -> String>(cells: &Vec<MapCell>, show: &S) -> (out: String)
    requires
        shows(*show),
    ensures
        out@ == csv_text(map_lines(*show, cells@)),
{
    let ghost want = map_lines(*show, cells@);
    let mut lines: Vec<Vec<String>> = Vec::new();
    lines.push(
        line4("hx".to_owned(), "hy".to_owned(), "gamma".to_owned(), "n_pairs".to_owned()),
    );
    for i in 0..cells.len()
        invariant
            shows(*show),
            want == map_lines(*show, cells@),
            lines@.len() == i + 1,
            forall|k: int| 0 <= k <= i ==> texts_of((#[trigger] lines@[k])@) == want[k],
    {
        let ghost before = lines@;
        let c: MapCell = cells[i];
        let gamma: String = if c.gamma.is_finite() {
            show_number(c.gamma, show)
        } else {
            String::new()
        };
        lines.push(
            line4(show_number(c.hx, show), show_number(c.hy, show), gamma, decimal(c.n_pairs)),
        );
        proof {
            assert(texts_of(lines@[i + 1]@) =~= map_line(*show, c));
            assert(want[i + 1] == map_line(*show, c));
            assert forall|k: int| 0 <= k <= i implies texts_of((#[trigger] lines@[k])@)
                == want[k] by {
                assert(lines@[k] == before[k]);
            }
        }
    }
    assert(line_texts(lines@) =~= want);
    join_lines(&lines)
}

/// A line of a sampled raster; nothing stands where there is no value.
pub open spec fn sample_line<F: Fn(Op, Double, Double) -> Double, S: Fn(Double) -> String>(
    ar: Arithmetic<F>,
    grid: &RasterGrid,
    show: S,
    p: [Double; 2],
) -> Seq<Seq<char>> {
    seq![
        shown(show, p@[0]),
        shown(show, p@[1]),
        match grid.sampled(ar, p@[0], p@[1]) {
            Some(v) => shown(show, v),
            None => Seq::empty(),
        },
    ]
}

/// The lines of a sampled raster: the names of the columns, then the points.
pub open spec fn sample_lines<F: Fn(Op, Double, Double) -> Double, S: Fn(Double) -> String>(
    ar: Arithmetic<F>,
    grid: &RasterGrid,
    names: Seq<Seq<char>>,
    show: S,
    points: Seq<[Double; 2]>,
) -> Seq<Seq<Seq<char>>> {
    seq![names] + Seq::new(points.len(), |i: int| sample_line(ar, grid, show, points[i]))
}

/// How many points of a raster have a value.
pub open spec fn hits<F: Fn(Op, Double, Double) -> Double>(
    ar: Arithmetic<F>,
    grid: &RasterGrid,
    points: Seq<[Double; 2]>,
) -> nat
    decreases points.len(),
{
    if points.len() == 0 {
        0
    } else {
        hits(ar, grid, points.drop_last()) + if grid.sampled(
            ar,
            points.last()@[0],
            points.last()@[1],
        ) is Some {
            1nat
        } else {
            0nat
        }
    }
}

/// Samples a raster at points: CSV text, and how many points have a value.
pub fn sample_points<F: Fn(Op, Double, Double) -> Double, S: Fn(Double) -> String>(
    grid: &RasterGrid,
    points: &Vec<[Double; 2]>,
    x_col: &str,
    y_col: &str,
    value_col: &str,
    show: &S,
    ar: &Arithmetic<F>,
) -> (r: (String, usize))
    requires
        grid.well_formed(),
        ar.total(),
        shows(*show),
    ensures
        r.0@ == csv_text(
            sample_lines(*ar, grid, seq![x_col@, y_col@, value_col@], *show, points@),
        ),
        r.1 == hits(*ar, grid, points@),
{
    let ghost names = seq![x_col@, y_col@, value_col@];
    let ghost want = sample_lines(*ar, grid, names, *show, points@);
    let mut lines: Vec<Vec<String>> = Vec::new();
    lines.push(line3(x_col.to_owned(), y_col.to_owned(), value_col.to_owned()));
    let mut n: usize = 0;
    for i in 0..points.len()
        invariant
            grid.well_formed(),
            ar.total(),
            shows(*show),
            want == sample_lines(*ar, grid, names, *show, points@),
            lines@.len() == i + 1,
            forall|k: int| 0 <= k <= i ==> texts_of((#[trigger] lines@[k])@) == want[k],
            n == hits(*ar, grid, points@.take(i as int)),
            n <= i,
    {
        let ghost before = lines@;
        let p: [Double; 2] = points[i];
        assert(points@.take(i + 1).drop_last() =~= points@.take(i as int));
        assert(points@.take(i + 1).last() == p);
        let v: Option<Double> = grid.sample(p[0], p[1], ar);
        let text: String = match v {
            Some(v) => {
                n = n + 1;
                show_number(v, show)
            },
            None => String::new(),
        };
        lines.push(line3(show_number(p[0], show), show_number(p[1], show), text));
        proof {
            assert(texts_of(lines@[i + 1]@) =~= sample_line(*ar, grid, *show, p));
            assert(want[i + 1] == sample_line(*ar, grid, *show, p));
            assert forall|k: int| 0 <= k <= i implies texts_of((#[trigger] lines@[k])@)
                == want[k] by {
                assert(lines@[k] == before[k]);
            }
        }
    }
    assert(points@.take(points.len() as int) =~= points@);
    assert(line_texts(lines@) =~= want);
    (join_lines(&lines), n)
}

/// Keys by which higher scores come first.
pub open spec fn falling_keys(scores: Seq<Double>) -> Seq<i64> {
    Seq::new(scores.len(), |i: int| (-1 - scores[i].total()) as i64)
}

/// Order of methods by falling score; methods with the same score stay in order.
pub fn rank_methods(scores: &Vec<Double>) -> (order: Vec<usize>)
    ensures
        stable_order(falling_keys(scores@), order@),
{
    let mut keys: Vec<i64> = Vec::new();
    for i in 0..scores.len()
        invariant
            keys@ =~= falling_keys(scores@).take(i as int),
    {
        let k: i64 = scores[i].total_key();
        keys.push(-1 - k);
    }
    assert(keys@ =~= falling_keys(scores@));
    sort_positions(keys.as_slice())
}

/// Trend at each of several rows of covariates.
pub fn trend_at_rows<F: Fn(Op, Double, Double) -> Double>(
    trend: &OlsTrend,
    rows: &Vec<Vec<Double>>,
    ar: &Arithmetic<F>,
) -> (out: Vec<Double>)
    requires
        trend.well_formed(),
        ar.total(),
    ensures
        out@ == Seq::new(rows@.len(), |i: int| trend.trend_at(*ar, rows@[i]@)),
{
    let mut out: Vec<Double> = Vec::new();
    for i in 0..rows.len()
        invariant
            trend.well_formed(),
            ar.total(),
            out@ =~= Seq::new(rows@.len(), |i: int| trend.trend_at(*ar, rows@[i]@)).take(i as int),
    {
        out.push(trend.predict(&rows[i], ar));
    }
    assert(out@ =~= Seq::new(rows@.len(), |i: int| trend.trend_at(*ar, rows@[i]@)));
    out
}

} // verus!

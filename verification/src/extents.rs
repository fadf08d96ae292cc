//! Whole numbers, cells and ranks: what rounding gives, how many cells cover an extent,
//! which candidate is chosen, and what default sizes are.

use vstd::prelude::*;

use crate::algebra::{halves, lemma_minus_undoes, lemma_squares};
use crate::arith::{num, Arithmetic, Op, TWO};
use crate::bucket_grid::cells_across;
use crate::commands::{falling_keys, lag_width_of, scan_range, spans};
use crate::data::PointSet;
use crate::double::{Double, ONE};
use crate::exact::{all_numbers, closed, distributes, exact, Numbers};
use crate::grid::Grid3D;
use crate::kriging::KrigingEstimate;
use crate::marginal::{FittedMarginal, MarginalTransport};
use crate::options::{in_order, quantile_of};
use crate::order::stable_order;
use crate::tgp::mapped_draws;
use crate::transform::normal_cdf;
use crate::tuning::{picked, TuneResult};
use crate::value::{lemma_mantissa, units, unity, unity_is_positive};

verus! {

proof fn lemma_whole(x: Double)
    ensures
        ({
            let size = if x.negative() {
                -units(x)
            } else {
                units(x)
            };
            &&& x.whole() * unity() <= size < (x.whole() + 1) * unity()
            &&& x.has_fraction() <==> size != x.whole() * unity()
        }),
{
    lemma_mantissa(x);
    unity_is_positive();
    let m = x.mantissa() as int;
    let s = x.scale();
    let low = vstd::arithmetic::power2::pow2((s - 1) as nat) as int;
    let u = unity();
    vstd::arithmetic::power2::lemma_pow2_pos((s - 1) as nat);
    let n = x.whole() as int;
    assert((n + 1) * u == n * u + u) by (nonlinear_arith);
    let size = if x.negative() {
        -units(x)
    } else {
        units(x)
    };
    assert(size == m * low);
    if s >= 1075 {
        let up = (s - 1075) as nat;
        vstd::arithmetic::power2::lemma_pow2_adds(up, 1074);
        assert(m * low == (m * vstd::arithmetic::power2::pow2(up) as int) * u) by (nonlinear_arith)
            requires
                low == vstd::arithmetic::power2::pow2(up) as int * u,
        ;
        assert(n * u == m * low);
        assert(!x.has_fraction());
    } else {
        let k = (1075 - s) as nat;
        let w = vstd::arithmetic::power2::pow2(k) as int;
        vstd::arithmetic::power2::lemma_pow2_adds(k, (s - 1) as nat);
        vstd::arithmetic::power2::lemma_pow2_pos(k);
        let (whole, rest) = (m / w, m % w);
        vstd::arithmetic::div_mod::lemma_fundamental_div_mod(m, w);
        vstd::arithmetic::div_mod::lemma_mod_bound(m, w);
        assert(m * low == whole * u + rest * low) by (nonlinear_arith)
            requires
                m == w * whole + rest,
                u == w * low,
        ;
        assert(0 <= rest * low < u && (rest != 0 ==> rest * low > 0)) by (nonlinear_arith)
            requires
                0 <= rest < w,
                low > 0,
                u == w * low,
        ;
        assert(n == whole);
        if rest == 0 {
            assert(rest * low == 0) by (nonlinear_arith)
                requires
                    rest == 0,
            ;
        }
        assert(x.has_fraction() <==> rest != 0);
    }
}

/// The whole number at or below a value is less than one away, and so is the one at or
/// above it; without its fraction, a value is the one of them nearer to zero.
pub proof fn whole_numbers_enclose(x: Double)
    ensures
        x.floored() * unity() <= units(x) < (x.floored() + 1) * unity(),
        (x.ceiled() - 1) * unity() < units(x) <= x.ceiled() * unity(),
        units(x) >= 0 ==> x.truncated() == x.floored(),
        units(x) <= 0 ==> x.truncated() == x.ceiled(),
{
    lemma_whole(x);
    unity_is_positive();
    let (w, u) = (x.whole() as int, unity());
    assert((w + 1) * u == w * u + u && (-w) * u == -(w * u) && (-w - 1) * u == -(w * u) - u && (-w
        + 1) * u == -(w * u) + u && (w - 1) * u == w * u - u) by (nonlinear_arith);
    assert(w * u >= 0) by (nonlinear_arith)
        requires
            w >= 0,
            u > 0,
    ;
    if w > 0 {
        assert(w * u > 0) by (nonlinear_arith)
            requires
                w > 0,
                u > 0,
        ;
    }
}

/// As many cells as cover an extent: one less would not, and there is at least one.
pub proof fn cells_cover_the_extent(x: Double)
    requires
        x.finite(),
        units(x) > 0,
        x.ceiled() <= i64::MAX,
        x.ceiled() <= usize::MAX,
    ensures
        units(x) <= cells_across(x) * unity(),
        (cells_across(x) - 1) * unity() < units(x),
        cells_across(x) >= 1,
{
    whole_numbers_enclose(x);
    unity_is_positive();
    assert(x.ceiled() >= 1) by (nonlinear_arith)
        requires
            0 < units(x) <= x.ceiled() * unity(),
            unity() > 0,
    ;
}

/// The centers of a grid in space stand in the middle of equal cells, listed along the
/// first axis, then the second, then the third.
pub proof fn centers_stand_in_the_middle_3d<F: Fn(Op, Double, Double) -> Double>(
    grid: Grid3D,
    ar: Arithmetic<F>,
    c: Numbers,
    centers: Seq<[Double; 3]>,
    ix: int,
    iy: int,
    iz: int,
)
    requires
        exact(ar, c),
        halves(ar, c),
        grid.are_centers(ar, centers),
        0 <= ix < grid.nx,
        0 <= iy < grid.ny,
        0 <= iz < grid.nz,
        c(grid.x0) && c(grid.y0) && c(grid.z0) && c(grid.dx) && c(grid.dy) && c(grid.dz),
        c(Double::count(ix as nat)) && c(Double::count(iy as nat)) && c(Double::count(iz as nat)),
    ensures
        centers.len() == grid.nx * grid.ny * grid.nz,
        0 <= iz * (grid.nx * grid.ny) + iy * grid.nx + ix < centers.len(),
        ({
            let p = centers[iz * (grid.nx * grid.ny) + iy * grid.nx + ix]@;
            let x = ar.minus(p[0], grid.x0);
            let y = ar.minus(p[1], grid.y0);
            let z = ar.minus(p[2], grid.z0);
            let i = Double::count(ix as nat);
            let j = Double::count(iy as nat);
            let k = Double::count(iz as nat);
            &&& ar.plus(x, x) == ar.times(ar.plus(ar.plus(i, i), num(ONE)), grid.dx)
            &&& ar.plus(y, y) == ar.times(ar.plus(ar.plus(j, j), num(ONE)), grid.dy)
            &&& ar.plus(z, z) == ar.times(ar.plus(ar.plus(k, k), num(ONE)), grid.dz)
        }),
{
    let (nx, ny, nz) = (grid.nx as int, grid.ny as int, grid.nz as int);
    crate::grid::lemma_index_3d(nx, ny, ix, iy, iz);
    let i = iz * (nx * ny) + iy * nx + ix;
    assert(0 <= i < nx * ny * nz) by (nonlinear_arith)
        requires
            0 <= ix < nx,
            0 <= iy < ny,
            0 <= iz < nz,
            i == iz * (nx * ny) + iy * nx + ix,
    ;
    assert(centers[i]@ == grid.center_at(ar, ix as nat, iy as nat, iz as nat));
    crate::averages::lemma_middle(ar, c, grid.x0, grid.dx, Double::count(ix as nat));
    crate::averages::lemma_middle(ar, c, grid.y0, grid.dy, Double::count(iy as nat));
    crate::averages::lemma_middle(ar, c, grid.z0, grid.dz, Double::count(iz as nat));
}

/// Tuning chooses a candidate with the highest of the finite scores.
pub proof fn best_candidate_scores_highest<P>(trace: Seq<(P, Double)>, t: TuneResult<P>)
    requires
        picked(trace, Ok(t)),
    ensures
        t.best_vecv.is_finite(),
        exists|b: int| 0 <= b < trace.len() && #[trigger] trace[b] == (t.best, t.best_vecv),
        forall|i: int|
            0 <= i < trace.len() && (#[trigger] trace[i]).1.is_finite() ==> trace[i].1.at_most(
                t.best_vecv,
            ),
{
    let b = choose|b: int| #[trigger]
        crate::tuning::wins(trace, b) && t.best == trace[b].0 && t.best_vecv == trace[b].1;
    assert(trace[b] == (t.best, t.best_vecv));
    assert forall|i: int| 0 <= i < trace.len() && (#[trigger] trace[i]).1.is_finite() implies trace[i].1.at_most(
        t.best_vecv,
    ) by {
        crate::double::lemma_total_refines_below(trace[i].1, t.best_vecv);
    }
}

/// Methods are ranked with the highest score first.
pub proof fn ranked_scores_fall(scores: Seq<Double>, order: Seq<usize>)
    requires
        stable_order(falling_keys(scores), order),
        forall|i: int| 0 <= i < scores.len() ==> !(#[trigger] scores[i]).nan(),
    ensures
        order.len() == scores.len(),
        forall|a: int, b: int|
            0 <= a < b < order.len() ==> #[trigger] order[a] != #[trigger] order[b]
                && scores[order[b] as int].at_most(scores[order[a] as int]),
{
    let keys = falling_keys(scores);
    assert forall|a: int, b: int| 0 <= a < b < order.len() implies #[trigger] order[a]
        != #[trigger] order[b] && scores[order[b] as int].at_most(scores[order[a] as int]) by {
        let (x, y) = (scores[order[a] as int], scores[order[b] as int]);
        assert(crate::order::precedes(keys, order[a], order[b]));
        assert(!x.nan() && !y.nan());
        crate::double::lemma_total_refines_below(y, x);
    }
}

/// A cutoff at a quantile is the value at the rank that the quantile cuts off: as many
/// values stand before it, in increasing order, as whole values in that part of them.
pub proof fn cutoffs_stand_at_their_rank<F: Fn(Op, Double, Double) -> Double>(
    ar: Arithmetic<F>,
    values: Seq<Double>,
    sorted: Seq<Double>,
    q: Double,
)
    requires
        in_order(values, sorted),
        0 < values.len() < i64::MAX,
        ({
            let x = ar.times(q, Double::count(values.len()));
            x.finite() && 0 <= units(x) < values.len() * unity()
        }),
    ensures
        exists|k: int|
            0 <= k < sorted.len() && #[trigger] sorted[k] == quantile_of(ar, sorted, q) && k
                * unity() <= units(ar.times(q, Double::count(values.len()))) < (k + 1) * unity(),
{
    let x = ar.times(q, Double::count(values.len()));
    whole_numbers_enclose(x);
    unity_is_positive();
    let k = x.truncated();
    let n = values.len() as int;
    assert(0 <= k < n) by (nonlinear_arith)
        requires
            k * unity() <= units(x) < (k + 1) * unity(),
            0 <= units(x) < n * unity(),
            unity() > 0,
    ;
    assert(sorted.len() == values.len());
    assert(sorted[k] == quantile_of(ar, sorted, q));
}

/// Default cell sizes and lag widths are parts of the diagonal of the data: its square is
/// that of the extents, and it is fifty times the least cell size, five times the greatest,
/// and twice the lags of a variogram map.
pub proof fn default_sizes_are_parts_of_the_diagonal<F: Fn(Op, Double, Double) -> Double>(
    ar: Arithmetic<F>,
    c: Numbers,
    data: &PointSet<2>,
    sizes: (Double, Double),
    n_lags: nat,
    width: Double,
)
    requires
        exact(ar, c),
        scan_range(ar, data, None, None, sizes),
        lag_width_of(ar, data, None, n_lags, width),
        forall|min: Seq<Double>, max: Seq<Double>| #[trigger]
            spans(data, min, max) ==> c(min[0]) && c(min[1]) && c(max[0]) && c(max[1]),
        forall|x: Double|
            c(x) ==> c(#[trigger] ar.sqrt(x)) && ar.times(ar.sqrt(x), ar.sqrt(x)) == x,
        c(Double::count(50)) && c(Double::count(5)) && c(Double::count(2)) && c(
            Double::count(n_lags),
        ),
        Double::count(50) != num(0) && Double::count(5) != num(0) && Double::count(2) != num(0)
            && Double::count(n_lags) != num(0),
    ensures
        exists|min: Seq<Double>, max: Seq<Double>, d: Double|
            #![trigger spans(data, min, max), c(d)]
            {
                let (x, y) = (ar.minus(max[0], min[0]), ar.minus(max[1], min[1]));
                &&& spans(data, min, max)
                &&& c(d)
                &&& ar.times(d, d) == ar.plus(ar.times(x, x), ar.times(y, y))
                &&& ar.times(sizes.0, Double::count(50)) == d
                &&& ar.times(sizes.1, Double::count(5)) == d
            },
        exists|min: Seq<Double>, max: Seq<Double>, d: Double|
            #![trigger spans(data, min, max), c(d)]
            {
                let (x, y) = (ar.minus(max[0], min[0]), ar.minus(max[1], min[1]));
                &&& spans(data, min, max)
                &&& c(d)
                &&& ar.times(d, d) == ar.plus(ar.times(x, x), ar.times(y, y))
                &&& ar.times(ar.times(width, Double::count(n_lags)), Double::count(2)) == d
            },
{
    lemma_small_counts();
    let (min, max) = choose|min: Seq<Double>, max: Seq<Double>| #[trigger]
        spans(data, min, max) && sizes.0 == ar.over(
            crate::commands::diagonal(ar, min, max),
            num(crate::commands::FIFTY),
        ) && sizes.1 == ar.over(
            crate::commands::diagonal(ar, min, max),
            num(crate::commands::FIVE),
        );
    lemma_diagonal(ar, c, min, max);
    let d = crate::commands::diagonal(ar, min, max);
    closed(ar, c, d, Double::count(50));
    closed(ar, c, d, Double::count(5));
    assert(spans(data, min, max) && c(d));
    let (lo, hi) = choose|min: Seq<Double>, max: Seq<Double>| #[trigger]
        spans(data, min, max) && width == ar.over(
            ar.over(crate::commands::diagonal(ar, min, max), num(TWO)),
            Double::count(n_lags),
        );
    lemma_diagonal(ar, c, lo, hi);
    let e = crate::commands::diagonal(ar, lo, hi);
    closed(ar, c, e, Double::count(2));
    closed(ar, c, ar.over(e, num(TWO)), Double::count(n_lags));
    assert(spans(data, lo, hi) && c(e));
}

proof fn lemma_diagonal<F: Fn(Op, Double, Double) -> Double>(
    ar: Arithmetic<F>,
    c: Numbers,
    min: Seq<Double>,
    max: Seq<Double>,
)
    requires
        exact(ar, c),
        c(min[0]) && c(min[1]) && c(max[0]) && c(max[1]),
        forall|x: Double|
            c(x) ==> c(#[trigger] ar.sqrt(x)) && ar.times(ar.sqrt(x), ar.sqrt(x)) == x,
    ensures
        ({
            let d = crate::commands::diagonal(ar, min, max);
            let (x, y) = (ar.minus(max[0], min[0]), ar.minus(max[1], min[1]));
            c(d) && ar.times(d, d) == ar.plus(ar.times(x, x), ar.times(y, y))
        }),
{
    let (x, y) = (ar.minus(max[0], min[0]), ar.minus(max[1], min[1]));
    closed(ar, c, max[0], min[0]);
    closed(ar, c, max[1], min[1]);
    closed(ar, c, x, x);
    closed(ar, c, y, y);
    closed(ar, c, ar.times(x, x), ar.times(y, y));
}

proof fn lemma_small_counts()
    ensures
        Double::count(50) == num(crate::commands::FIFTY),
        Double::count(5) == num(crate::commands::FIVE),
        Double::count(2) == num(TWO),
{
    reveal_with_fuel(Double::scaled, 54);
}

/// The normal distribution is symmetric: the parts below a value and below its opposite
/// make up one.
pub proof fn normal_distribution_is_symmetric<F: Fn(Op, Double, Double) -> Double>(
    ar: Arithmetic<F>,
    c: Numbers,
    z: Double,
)
    requires
        exact(ar, c),
        num(0).below(z),
        c(normal_cdf(ar, z)),
    ensures
        ar.plus(normal_cdf(ar, z), normal_cdf(ar, z.neg())) == num(ONE),
{
    assert(z.neg().abs() == z.abs());
    assert(!num(0).at_most(z.neg()));
    closed(ar, c, num(ONE), normal_cdf(ar, z));
    lemma_minus_undoes(ar, c, num(ONE), normal_cdf(ar, z));
}

/// Draws in data units come from latent values that deviate from the estimate by as many
/// standard deviations as a normal says: squared, the deviation is the variance times the
/// squared normal.
pub proof fn latent_draws_deviate_by_standard_deviations<F: Fn(Op, Double, Double) -> Double, T: MarginalTransport<F>>(
    ar: Arithmetic<F>,
    c: Numbers,
    m: FittedMarginal<T>,
    e: KrigingEstimate,
    zs: Seq<Double>,
    i: int,
)
    requires
        exact(ar, c),
        0 <= i < zs.len(),
        c(zs[i]),
        c(e.value),
        c(e.variance),
        !e.variance.nan() && !e.variance.below(num(0)),
        c(ar.sqrt(e.variance)),
        ar.times(ar.sqrt(e.variance), ar.sqrt(e.variance)) == e.variance,
    ensures
        mapped_draws(ar, m, e, zs).len() == zs.len(),
        exists|y: Double| #[trigger] c(y) && mapped_draws(ar, m, e, zs)[i] == m.data(ar, y) && ar.times(
            ar.minus(y, e.value),
            ar.minus(y, e.value),
        ) == ar.times(e.variance, ar.times(zs[i], zs[i])),
{
    let sd = ar.sqrt(e.variance);
    assert(e.variance.max(num(0)) == e.variance);
    let t = ar.times(sd, zs[i]);
    closed(ar, c, sd, zs[i]);
    closed(ar, c, e.value, t);
    let y = ar.plus(e.value, t);
    lemma_minus_undoes(ar, c, t, e.value);
    lemma_squares(ar, c, sd, sd, zs[i], zs[i]);
    assert(c(y));
}

/// Squared distances are sums of squared differences, and separations lead from one point
/// to the other.
pub proof fn distances_are_those_of_coordinates<F: Fn(Op, Double, Double) -> Double, const D: usize>(
    ar: Arithmetic<F>,
    c: Numbers,
    p: [Double; D],
    q: [Double; D],
)
    requires
        exact(ar, c),
        all_numbers(c, p@),
        all_numbers(c, q@),
    ensures
        ar.distance2(p, q) == ar.accumulated(
            Seq::new(
                D as nat,
                |d: int| ar.times(ar.minus(p@[d], q@[d]), ar.minus(p@[d], q@[d])),
            ),
        ),
        ar.distance2(p, q) == ar.distance2(q, p),
        forall|d: int|
            0 <= d < D ==> ar.plus(#[trigger] ar.separation(p@, q@)[d], q@[d]) == p@[d],
{
    lemma_gap(ar, c, p@, q@, D as int);
    let squares = Seq::new(
        D as nat,
        |d: int| ar.times(ar.minus(p@[d], q@[d]), ar.minus(p@[d], q@[d])),
    );
    assert(squares.take(D as int) =~= squares);
    assert forall|d: int| 0 <= d < D implies ar.plus(
        #[trigger] ar.separation(p@, q@)[d],
        q@[d],
    ) == p@[d] by {
        assert(c(p@[d]) && c(q@[d]));
        closed(ar, c, p@[d], q@[d]);
    }
}

proof fn lemma_gap<F: Fn(Op, Double, Double) -> Double>(
    ar: Arithmetic<F>,
    c: Numbers,
    p: Seq<Double>,
    q: Seq<Double>,
    n: int,
)
    requires
        exact(ar, c),
        all_numbers(c, p),
        all_numbers(c, q),
        0 <= n <= p.len(),
        p.len() == q.len(),
    ensures
        ar.gap2(p, q, n) == ar.accumulated(
            Seq::new(
                p.len(),
                |d: int| ar.times(ar.minus(p[d], q[d]), ar.minus(p[d], q[d])),
            ).take(n),
        ),
        ar.gap2(p, q, n) == ar.gap2(q, p, n),
    decreases n,
{
    let squares = Seq::new(p.len(), |d: int| ar.times(ar.minus(p[d], q[d]), ar.minus(p[d], q[d])));
    if n > 0 {
        lemma_gap(ar, c, p, q, n - 1);
        assert(squares.take(n).drop_last() =~= squares.take(n - 1));
        assert(squares.take(n).last() == squares[n - 1]);
        let (a, b) = (p[n - 1], q[n - 1]);
        assert(c(p[n - 1]) && c(q[n - 1]));
        // x == a - b and y == b - a, and x + y == 0.
        let (x, y) = (ar.minus(a, b), ar.minus(b, a));
        closed(ar, c, a, b);
        closed(ar, c, b, a);
        closed(ar, c, x, y);
        crate::exact::plus_associates(ar, c, y, x, b);
        closed(ar, c, ar.plus(x, y), b);
        closed(ar, c, b, num(0));
        lemma_minus_undoes(ar, c, ar.plus(x, y), b);
        lemma_minus_undoes(ar, c, num(0), b);
        assert(ar.plus(x, y) == num(0));
        // x x + x y == 0 == y y + x y
        distributes(ar, c, x, x, y);
        distributes(ar, c, y, x, y);
        closed(ar, c, x, num(0));
        closed(ar, c, y, num(0));
        closed(ar, c, x, x);
        closed(ar, c, y, y);
        let z = ar.times(x, y);
        closed(ar, c, z, ar.times(y, y));
        lemma_minus_undoes(ar, c, ar.times(x, x), z);
        lemma_minus_undoes(ar, c, ar.times(y, y), z);
    } else {
        assert(squares.take(0) =~= Seq::empty());
    }
}

} // verus!

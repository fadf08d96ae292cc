//! Declustering over an arithmetic without rounding: the weights sum to the number of
//! points. For an arithmetic that rounds to the nearest double they are positive.

use vstd::arithmetic::power2::{
    lemma2_to64, lemma2_to64_rest, lemma_pow2_adds, lemma_pow2_pos, lemma_pow2_strictly_increases,
    pow2,
};
use vstd::prelude::*;

use crate::arith::{num, Arithmetic, Op};
use crate::data::PointSet;
use crate::declustering::{
    cell_weight, cells_of, decluster_outcome, occupied, origin_shift, scan_outcome, sharing,
    weight_sum, weights_from, DeclusterScan,
};
use crate::double::{Double, HIDDEN, ONE};
use crate::exact::{
    all_numbers, closed, distributes, exact, lemma_total_start, times_associates, times_cancels,
    Numbers,
};
use crate::exact_collocated::lemma_over_itself;
use crate::exact_kriging::{lemma_total_added, lemma_total_scaled};
use crate::nearest::{greatest, lemma_rounding_stays, nearest, rounds_to};
use crate::value::{
    counts_have_their_value, units, unity, unity_is_positive, values_order_as_doubles,
};

verus! {

/// 2 to the 106th.
pub const TWO_TO_106: u128 = 0x400_0000_0000_0000_0000_0000_0000;

/// Bit pattern of 2 to the 106th: no product of two counts is greater.
pub const MOST_PRODUCT: u64 = 0x4690_0000_0000_0000;

/// Bit pattern of 2 to the power -106: no share is lesser.
pub const LEAST_SHARE: u64 = 0x3950_0000_0000_0000;

/// Bit pattern of 2 to the power -53: no ratio of two counts is lesser.
pub const LEAST_RATIO: u64 = 0x3CA0_0000_0000_0000;

/// One after the other, the counts up to `n` are numbers, each one more than the one
/// before.
pub open spec fn tallies<F: Fn(Op, Double, Double) -> Double>(ar: Arithmetic<F>, c: Numbers, n: nat) -> bool {
    &&& forall|k: nat| k <= n ==> c(#[trigger] Double::count(k))
    &&& forall|k: nat|
        k < n ==> ar.plus(#[trigger] Double::count(k), num(ONE)) == Double::count(k + 1)
}

proof fn lemma_count_not_zero(k: nat)
    requires
        0 < k < 2 * HIDDEN,
    ensures
        Double::count(k) != num(0),
{
    Double::counts_are_positive(k);
}

proof fn lemma_sharing_bounded(cells: Seq<Seq<i64>>, cell: Seq<i64>, n: int)
    requires
        0 <= n,
    ensures
        sharing(cells, cell, n) <= n,
    decreases n,
{
    if n > 0 {
        lemma_sharing_bounded(cells, cell, n - 1);
    }
}

proof fn lemma_occupied_bounded(cells: Seq<Seq<i64>>, n: int)
    requires
        0 <= n,
    ensures
        occupied(cells, n) <= n,
        n > 0 ==> occupied(cells, n) > 0,
    decreases n,
{
    if n > 0 {
        lemma_occupied_bounded(cells, n - 1);
        lemma_sharing_bounded(cells, cells[n - 1], n - 1);
    }
}

proof fn lemma_sharing_grows(cells: Seq<Seq<i64>>, cell: Seq<i64>, a: int, b: int)
    requires
        0 <= a <= b,
    ensures
        sharing(cells, cell, a) <= sharing(cells, cell, b),
    decreases b,
{
    if a < b {
        lemma_sharing_grows(cells, cell, a, b - 1);
    }
}

/// Share of the points of cell `j` that are among the first `k`.
spec fn cell_part<F: Fn(Op, Double, Double) -> Double>(
    ar: Arithmetic<F>,
    cells: Seq<Seq<i64>>,
    k: int,
    j: int,
) -> Double {
    ar.over(
        Double::count(sharing(cells, cells[j], k)),
        Double::count(sharing(cells, cells[j], cells.len() as int)),
    )
}

/// Sum over the cells of the first `u` points of the shares that are among the first `k`.
spec fn parts_sum<F: Fn(Op, Double, Double) -> Double>(
    ar: Arithmetic<F>,
    cells: Seq<Seq<i64>>,
    k: int,
    u: int,
) -> Double
    decreases u,
{
    if u <= 0 {
        num(0)
    } else if sharing(cells, cells[u - 1], u - 1) == 0 {
        ar.plus(parts_sum(ar, cells, k, u - 1), cell_part(ar, cells, k, u - 1))
    } else {
        parts_sum(ar, cells, k, u - 1)
    }
}

/// One over the number of points in the cell of point `i`.
spec fn point_part<F: Fn(Op, Double, Double) -> Double>(
    ar: Arithmetic<F>,
    cells: Seq<Seq<i64>>,
    i: int,
) -> Double {
    ar.over(num(ONE), Double::count(sharing(cells, cells[i], cells.len() as int)))
}

/// The parts are numbers, and one point more in a cell adds its part.
proof fn lemma_part<F: Fn(Op, Double, Double) -> Double>(
    ar: Arithmetic<F>,
    c: Numbers,
    cells: Seq<Seq<i64>>,
    k: int,
    j: int,
)
    requires
        exact(ar, c),
        cells.len() < 2 * HIDDEN,
        tallies(ar, c, cells.len()),
        0 <= j < cells.len(),
        0 <= k <= cells.len(),
    ensures
        c(cell_part(ar, cells, k, j)),
        c(point_part(ar, cells, j)),
        sharing(cells, cells[j], k) < cells.len() ==> ar.over(
            Double::count(sharing(cells, cells[j], k) + 1),
            Double::count(sharing(cells, cells[j], cells.len() as int)),
        ) == ar.plus(cell_part(ar, cells, k, j), point_part(ar, cells, j)),
        k == cells.len() ==> cell_part(ar, cells, k, j) == num(ONE),
{
    let n = cells.len() as int;
    let a = sharing(cells, cells[j], k);
    let s = sharing(cells, cells[j], n);
    lemma_sharing_bounded(cells, cells[j], k);
    lemma_sharing_bounded(cells, cells[j], n);
    lemma_sharing_grows(cells, cells[j], j + 1, n);
    lemma_count_not_zero(s);
    let q = Double::count(s);
    let x = Double::count(a);
    assert(c(q) && c(x));
    closed(ar, c, x, q);
    closed(ar, c, num(ONE), q);
    let (p, o) = (ar.over(x, q), ar.over(num(ONE), q));
    closed(ar, c, p, o);
    if a < cells.len() {
        let y = Double::count(a + 1);
        assert(c(y));
        assert(ar.plus(x, num(ONE)) == y);
        closed(ar, c, y, q);
        closed(ar, c, q, p);
        closed(ar, c, q, o);
        closed(ar, c, q, ar.plus(p, o));
        distributes(ar, c, q, p, o);
        times_cancels(ar, c, ar.over(y, q), ar.plus(p, o), q);
    }
    if k == n {
        lemma_over_itself(ar, c, q);
    }
}

proof fn lemma_parts_closed<F: Fn(Op, Double, Double) -> Double>(
    ar: Arithmetic<F>,
    c: Numbers,
    cells: Seq<Seq<i64>>,
    k: int,
    u: int,
)
    requires
        exact(ar, c),
        cells.len() < 2 * HIDDEN,
        tallies(ar, c, cells.len()),
        0 <= k <= cells.len(),
        0 <= u <= cells.len(),
    ensures
        c(parts_sum(ar, cells, k, u)),
    decreases u,
{
    closed(ar, c, num(0), num(0));
    if u > 0 {
        lemma_parts_closed(ar, c, cells, k, u - 1);
        lemma_part(ar, c, cells, k, u - 1);
        closed(ar, c, parts_sum(ar, cells, k, u - 1), cell_part(ar, cells, k, u - 1));
    }
}

/// Point `k` adds its part to the sum where its cell is among those summed over.
proof fn lemma_parts_step<F: Fn(Op, Double, Double) -> Double>(
    ar: Arithmetic<F>,
    c: Numbers,
    cells: Seq<Seq<i64>>,
    k: int,
    u: int,
)
    requires
        exact(ar, c),
        cells.len() < 2 * HIDDEN,
        tallies(ar, c, cells.len()),
        0 <= k < cells.len(),
        0 <= u <= k,
    ensures
        parts_sum(ar, cells, k + 1, u) == (if sharing(cells, cells[k], u) == 0 {
            parts_sum(ar, cells, k, u)
        } else {
            ar.plus(parts_sum(ar, cells, k, u), point_part(ar, cells, k))
        }),
    decreases u,
{
    if u > 0 {
        let j = u - 1;
        lemma_parts_step(ar, c, cells, k, j);
        lemma_parts_closed(ar, c, cells, k, j);
        lemma_part(ar, c, cells, k, j);
        lemma_part(ar, c, cells, k, k);
        let before = parts_sum(ar, cells, k, j);
        let part = cell_part(ar, cells, k, j);
        let more = point_part(ar, cells, k);
        closed(ar, c, part, more);
        closed(ar, c, before, more);
        closed(ar, c, before, part);
        if sharing(cells, cells[j], j) == 0 {
            if cells[j] == cells[k] {
                lemma_sharing_bounded(cells, cells[k], k);
                assert(sharing(cells, cells[k], k + 1) == sharing(cells, cells[k], k) + 1);
                assert(cell_part(ar, cells, k + 1, j) == ar.plus(part, more));
                crate::exact::plus_associates(ar, c, before, part, more);
            } else {
                assert(sharing(cells, cells[j], k + 1) == sharing(cells, cells[j], k));
                assert(cell_part(ar, cells, k + 1, j) == part);
                crate::exact::plus_associates(ar, c, before, more, part);
                crate::exact::plus_associates(ar, c, before, part, more);
            }
        }
    }
}

/// The parts of the points.
spec fn point_parts<F: Fn(Op, Double, Double) -> Double>(ar: Arithmetic<F>, cells: Seq<Seq<i64>>, k: nat) -> Seq<Double> {
    Seq::new(k, |i: int| point_part(ar, cells, i))
}

/// The parts of the first `k` points sum to what their cells hold of all points.
proof fn lemma_point_parts<F: Fn(Op, Double, Double) -> Double>(
    ar: Arithmetic<F>,
    c: Numbers,
    cells: Seq<Seq<i64>>,
    k: nat,
)
    requires
        exact(ar, c),
        cells.len() < 2 * HIDDEN,
        tallies(ar, c, cells.len()),
        k <= cells.len(),
    ensures
        ar.accumulated(point_parts(ar, cells, k)) == parts_sum(ar, cells, k as int, k as int),
    decreases k,
{
    if k > 0 {
        let j = (k - 1) as nat;
        lemma_point_parts(ar, c, cells, j);
        assert(point_parts(ar, cells, k).drop_last() =~= point_parts(ar, cells, j));
        lemma_parts_step(ar, c, cells, j as int, j as int);
        if sharing(cells, cells[j as int], j as int) == 0 {
            assert(sharing(cells, cells[j as int], k as int) == 1);
            assert(Double::count(1) == num(ONE)) by {
                lemma_one();
            }
        }
    }
}

/// The count of one is one.
proof fn lemma_one()
    ensures
        Double::count(1) == num(ONE),
{
    assert(Double::count(1) == Double::scaled(1, 1075));
    reveal_with_fuel(Double::scaled, 54);
}

/// All cells together hold all points: their parts are as many as there are cells.
proof fn lemma_all_parts<F: Fn(Op, Double, Double) -> Double>(
    ar: Arithmetic<F>,
    c: Numbers,
    cells: Seq<Seq<i64>>,
    u: int,
)
    requires
        exact(ar, c),
        cells.len() < 2 * HIDDEN,
        tallies(ar, c, cells.len()),
        0 <= u <= cells.len(),
    ensures
        parts_sum(ar, cells, cells.len() as int, u) == Double::count(occupied(cells, u)),
    decreases u,
{
    if u > 0 {
        lemma_all_parts(ar, c, cells, u - 1);
        lemma_part(ar, c, cells, cells.len() as int, u - 1);
        lemma_occupied_bounded(cells, u - 1);
    }
}

/// The weights for one grid origin.
spec fn origin_weights<F: Fn(Op, Double, Double) -> Double>(ar: Arithmetic<F>, cells: Seq<Seq<i64>>) -> Seq<Double> {
    Seq::new(cells.len(), |i: int| cell_weight(ar, cells, i))
}

/// The weights for one grid origin sum to one.
proof fn lemma_origin_sums_to_one<F: Fn(Op, Double, Double) -> Double>(
    ar: Arithmetic<F>,
    c: Numbers,
    cells: Seq<Seq<i64>>,
)
    requires
        exact(ar, c),
        0 < cells.len() < 2 * HIDDEN,
        tallies(ar, c, cells.len()),
    ensures
        ar.accumulated(origin_weights(ar, cells)) == num(ONE),
        all_numbers(c, origin_weights(ar, cells)),
{
    let n = cells.len();
    let parts = point_parts(ar, cells, n);
    let ws = origin_weights(ar, cells);
    let m = Double::count(occupied(cells, n as int));
    lemma_occupied_bounded(cells, n as int);
    lemma_count_not_zero(occupied(cells, n as int));
    assert(c(m));
    closed(ar, c, num(ONE), m);
    let share = ar.over(num(ONE), m);
    assert forall|i: int| 0 <= i < n implies #[trigger] ws[i] == ar.times(share, parts[i]) && c(
        parts[i],
    ) && c(ws[i]) by {
        let s = sharing(cells, cells[i], n as int);
        lemma_part(ar, c, cells, n as int, i);
        lemma_sharing_bounded(cells, cells[i], n as int);
        lemma_sharing_grows(cells, cells[i], i + 1, n as int);
        lemma_count_not_zero(s);
        let q = Double::count(s);
        assert(c(q));
        lemma_product_of_shares(ar, c, q, m);
    }
    assert forall|i: int| 0 <= i < parts.len() implies c(#[trigger] parts[i]) by {
        assert(ws[i] == ar.times(share, parts[i]));
    }
    assert(all_numbers(c, ws));
    lemma_total_scaled(ar, c, share, parts, ws);
    lemma_point_parts(ar, c, cells, n);
    lemma_all_parts(ar, c, cells, n as int);
}

/// `1 / (q m) == (1 / m) (1 / q)`.
proof fn lemma_product_of_shares<F: Fn(Op, Double, Double) -> Double>(
    ar: Arithmetic<F>,
    c: Numbers,
    q: Double,
    m: Double,
)
    requires
        exact(ar, c),
        c(q),
        c(m),
        q != num(0),
        m != num(0),
    ensures
        ar.over(num(ONE), ar.times(q, m)) == ar.times(
            ar.over(num(ONE), m),
            ar.over(num(ONE), q),
        ),
        ar.times(q, m) != num(0),
        c(ar.over(num(ONE), ar.times(q, m))),
{
    closed(ar, c, num(0), num(ONE));
    closed(ar, c, num(ONE), q);
    closed(ar, c, num(ONE), m);
    closed(ar, c, q, m);
    let qm = ar.times(q, m);
    let (a, b) = (ar.over(num(ONE), m), ar.over(num(ONE), q));
    if qm == num(0) {
        closed(ar, c, m, num(0));
        times_cancels(ar, c, q, num(0), m);
    }
    closed(ar, c, num(ONE), qm);
    closed(ar, c, a, b);
    closed(ar, c, b, q);
    // (a b) (q m) = a ((b q) m) = a m = 1.
    times_associates(ar, c, a, b, qm);
    times_associates(ar, c, b, q, m);
    closed(ar, c, m, m);
    times_cancels(ar, c, ar.over(num(ONE), qm), ar.times(a, b), qm);
}

/// The weights of the points, summed over the first `o` grid origins.
spec fn sums_at<const D: usize, F: Fn(Op, Double, Double) -> Double>(
    ar: Arithmetic<F>,
    places: Seq<[Double; D]>,
    min: Seq<Double>,
    size: Double,
    n_offsets: nat,
    o: nat,
) -> Seq<Double> {
    Seq::new(places.len(), |i: int| weight_sum(ar, places, min, size, n_offsets, i, o))
}

/// Zeros sum to zero.
pub(crate) proof fn lemma_zeros<F: Fn(Op, Double, Double) -> Double>(ar: Arithmetic<F>, c: Numbers, n: nat)
    requires
        exact(ar, c),
    ensures
        ar.accumulated(Seq::new(n, |i: int| num(0))) == num(0),
    decreases n,
{
    closed(ar, c, num(0), num(0));
    if n > 0 {
        lemma_zeros(ar, c, (n - 1) as nat);
        assert(Seq::new(n, |i: int| num(0)).drop_last() =~= Seq::new(
            (n - 1) as nat,
            |i: int| num(0),
        ));
    }
}

/// Over the first `o` grid origins, the weights sum to as many.
proof fn lemma_origins_sum<const D: usize, F: Fn(Op, Double, Double) -> Double>(
    ar: Arithmetic<F>,
    c: Numbers,
    places: Seq<[Double; D]>,
    min: Seq<Double>,
    size: Double,
    n_offsets: nat,
    o: nat,
)
    requires
        exact(ar, c),
        0 < places.len() < 2 * HIDDEN,
        tallies(ar, c, places.len()),
        tallies(ar, c, n_offsets),
        o <= n_offsets,
    ensures
        ar.accumulated(sums_at(ar, places, min, size, n_offsets, o)) == Double::count(o),
        all_numbers(c, sums_at(ar, places, min, size, n_offsets, o)),
    decreases o,
{
    let now = sums_at(ar, places, min, size, n_offsets, o);
    closed(ar, c, num(0), num(0));
    if o == 0 {
        lemma_zeros(ar, c, places.len());
        assert(now =~= Seq::new(places.len(), |i: int| num(0)));
    } else {
        let k = (o - 1) as nat;
        lemma_origins_sum(ar, c, places, min, size, n_offsets, k);
        let before = sums_at(ar, places, min, size, n_offsets, k);
        let cells = cells_of(ar, places, min, origin_shift(ar, size, k, n_offsets), size);
        let ws = origin_weights(ar, cells);
        lemma_origin_sums_to_one(ar, c, cells);
        assert forall|i: int| 0 <= i < now.len() implies #[trigger] now[i] == ar.plus(
            before[i],
            ws[i],
        ) && c(now[i]) by {
            assert(c(before[i]) && c(ws[i]));
            closed(ar, c, before[i], ws[i]);
        }
        lemma_total_added(ar, c, before, ws, now);
    }
}

proof fn lemma_weights_sum<const D: usize, F: Fn(Op, Double, Double) -> Double>(
    ar: Arithmetic<F>,
    c: Numbers,
    places: Seq<[Double; D]>,
    min: Seq<Double>,
    size: Double,
    n_offsets: nat,
)
    requires
        exact(ar, c),
        0 < places.len() < 2 * HIDDEN,
        0 < n_offsets < 2 * HIDDEN,
        tallies(ar, c, places.len()),
        tallies(ar, c, n_offsets),
    ensures
        ar.total_of(weights_from(ar, places, min, size, n_offsets)) == Double::count(places.len()),
{
    let sums = sums_at(ar, places, min, size, n_offsets, n_offsets);
    let ws = weights_from(ar, places, min, size, n_offsets);
    let (n, q) = (Double::count(places.len()), Double::count(n_offsets));
    let scale = ar.over(n, q);
    lemma_origins_sum(ar, c, places, min, size, n_offsets, n_offsets);
    lemma_count_not_zero(n_offsets);
    assert(c(n) && c(q));
    closed(ar, c, n, q);
    assert forall|i: int| 0 <= i < ws.len() implies #[trigger] ws[i] == ar.times(scale, sums[i])
        && c(ws[i]) by {
        assert(c(sums[i]));
        closed(ar, c, sums[i], scale);
    }
    lemma_total_scaled(ar, c, scale, sums, ws);
    lemma_total_start(ar, c, ws);
}

/// Declustering weights sum to the number of points, for an arithmetic that does not
/// round.
pub proof fn weights_sum_to_the_count<const D: usize, F: Fn(Op, Double, Double) -> Double>(
    ar: Arithmetic<F>,
    c: Numbers,
    places: Seq<[Double; D]>,
    size: Double,
    n_offsets: usize,
    w: Vec<Double>,
)
    requires
        exact(ar, c),
        0 < places.len() < 2 * HIDDEN,
        n_offsets < 2 * HIDDEN,
        tallies(ar, c, places.len()),
        tallies(ar, c, n_offsets as nat),
        decluster_outcome(ar, places, size, n_offsets, Ok(w)),
    ensures
        w@.len() == places.len(),
        ar.total_of(w@) == Double::count(places.len()),
{
    let min = choose|min: [Double; D]| #[trigger]
        crate::declustering::lower_corner(places, min) && w@ == weights_from(
            ar,
            places,
            min@,
            size,
            n_offsets as nat,
        );
    lemma_weights_sum(ar, c, places, min@, size, n_offsets as nat);
}

/// The weights of a scan of cell sizes sum to the number of points, for an arithmetic that
/// does not round.
pub proof fn scanned_weights_sum_to_the_count<const D: usize, F: Fn(Op, Double, Double) -> Double>(
    ar: Arithmetic<F>,
    c: Numbers,
    data: &PointSet<D>,
    min: Double,
    max: Double,
    n_sizes: usize,
    n_offsets: usize,
    minimize: bool,
    s: DeclusterScan,
)
    requires
        exact(ar, c),
        0 < data.places().len() < 2 * HIDDEN,
        0 < n_offsets < 2 * HIDDEN,
        tallies(ar, c, data.places().len()),
        tallies(ar, c, n_offsets as nat),
        scan_outcome(ar, data, min, max, n_sizes, n_offsets, minimize, Ok(s)),
    ensures
        s.weights@.len() == data.places().len(),
        ar.total_of(s.weights@) == Double::count(data.places().len()),
{
    let corner = choose|corner: [Double; D]| #[trigger]
        crate::declustering::lower_corner(data.places(), corner) && crate::declustering::is_scan(
            ar,
            data,
            corner@,
            min,
            max,
            n_sizes as nat,
            n_offsets as nat,
            minimize,
            s,
        );
    lemma_weights_sum(ar, c, data.places(), corner@, s.best_size, n_offsets as nat);
}

/// The value of a power of two.
proof fn lemma_units_of(d: Double, e: nat)
    requires
        !d.negative(),
        d.mantissa() == HIDDEN,
        d.scale() == e + 1,
    ensures
        units(d) == pow2(52 + e),
{
    lemma2_to64_rest();
    lemma_pow2_adds(52, e);
    let (m, p) = (d.mantissa(), pow2(e));
    assert(m * p == HIDDEN * p) by (nonlinear_arith)
        requires
            m == HIDDEN,
    ;
}

/// The values of the bounds.
proof fn lemma_bounds()
    ensures
        units(num(MOST_PRODUCT)) == TWO_TO_106 * unity(),
        TWO_TO_106 * units(num(LEAST_SHARE)) == unity(),
        2 * HIDDEN * units(num(LEAST_RATIO)) == unity(),
        units(num(LEAST_SHARE)) * units(num(LEAST_RATIO)) >= unity(),
        units(num(LEAST_SHARE)) > 0,
        num(MOST_PRODUCT).finite(),
        num(LEAST_SHARE).finite(),
        num(LEAST_RATIO).finite(),
        units(greatest()) >= TWO_TO_106 * unity(),
        units(num(1)) == 1,
        num(1).finite(),
{
    lemma2_to64();
    lemma2_to64_rest();
    lemma_pow2_adds(53, 53);
    lemma_pow2_adds(106, 968);
    lemma_pow2_adds(53, 1021);
    lemma_pow2_adds(106, 1074);
    lemma_pow2_adds(968, 1021);
    lemma_pow2_adds(52, 1128);
    lemma_pow2_adds(52, 916);
    lemma_pow2_adds(52, 969);
    lemma_pow2_strictly_increases(1074, 1989);
    lemma_pow2_pos(968);
    unity_is_positive();
    let (p, q, r) = (num(MOST_PRODUCT), num(LEAST_SHARE), num(LEAST_RATIO));
    assert(p.exponent() == 1129 && p.mantissa() == HIDDEN);
    assert(q.exponent() == 917 && q.mantissa() == HIDDEN);
    assert(r.exponent() == 970 && r.mantissa() == HIDDEN);
    assert(num(1).exponent() == 0 && num(1).mantissa() == 1);
    lemma_units_of(p, 1128);
    lemma_units_of(q, 916);
    lemma_units_of(r, 969);
    let (m, one) = (num(1).mantissa(), pow2(0));
    assert((num(1).scale() - 1) as nat == 0);
    assert(m * one == m) by (nonlinear_arith)
        requires
            one == 1,
    ;
    values_order_as_doubles(p, greatest());
}

/// The weight of a point for one grid origin is no lesser than the least share, and no
/// greater than one.
proof fn lemma_share_of_doubles<F: Fn(Op, Double, Double) -> Double>(
    ar: Arithmetic<F>,
    s: nat,
    m: nat,
)
    requires
        nearest(ar),
        0 < s < 2 * HIDDEN,
        0 < m < 2 * HIDDEN,
    ensures
        ({
            let w = ar.over(num(ONE), ar.times(Double::count(s), Double::count(m)));
            &&& w.finite()
            &&& units(num(LEAST_SHARE)) <= units(w) <= unity()
        }),
{
    let u = unity();
    let g = units(greatest());
    lemma_bounds();
    unity_is_positive();
    counts_have_their_value(s);
    counts_have_their_value(m);
    let (a, b) = (Double::count(s), Double::count(m));
    let x = units(a) * units(b);
    let n = (s * m) as int;
    assert(0 < n <= TWO_TO_106) by (nonlinear_arith)
        requires
            n == s * m,
            0 < s < 2 * HIDDEN,
            0 < m < 2 * HIDDEN,
            HIDDEN == 0x10_0000_0000_0000,
            TWO_TO_106 == 0x400_0000_0000_0000_0000_0000_0000,
    ;
    assert(x == n * (u * u)) by (nonlinear_arith)
        requires
            x == (s * u) * (m * u),
            n == s * m,
    ;
    assert(u * u <= x <= (TWO_TO_106 * u) * u && x >= 0) by (nonlinear_arith)
        requires
            x == n * (u * u),
            0 < n <= TWO_TO_106,
            u > 0,
    ;
    assert(x <= g * u) by (nonlinear_arith)
        requires
            x <= (TWO_TO_106 * u) * u,
            g >= TWO_TO_106 * u,
            u > 0,
    ;
    let p = ar.times(a, b);
    assert(rounds_to(p, x, u));
    lemma_rounding_stays(p, x, u, num(ONE));
    lemma_rounding_stays(p, x, u, num(MOST_PRODUCT));
    let pu = units(p);
    assert(u * u <= g * pu && u * u >= 0 && u * u <= u * pu) by (nonlinear_arith)
        requires
            u <= pu,
            u <= g,
            u > 0,
    ;
    let w = ar.over(num(ONE), p);
    assert(rounds_to(w, u * u, pu));
    let least = units(num(LEAST_SHARE));
    assert(least * pu <= u * u) by (nonlinear_arith)
        requires
            pu <= TWO_TO_106 * u,
            TWO_TO_106 * least == u,
            least > 0,
            u > 0,
    ;
    lemma_rounding_stays(w, u * u, pu, num(LEAST_SHARE));
    lemma_rounding_stays(w, u * u, pu, num(ONE));
}

proof fn lemma_sum_bounded<const D: usize, F: Fn(Op, Double, Double) -> Double>(
    ar: Arithmetic<F>,
    places: Seq<[Double; D]>,
    min: Seq<Double>,
    size: Double,
    n_offsets: nat,
    i: int,
    o: nat,
)
    requires
        nearest(ar),
        places.len() < 2 * HIDDEN,
        0 <= i < places.len(),
        0 < o < 2 * HIDDEN,
    ensures
        ({
            let sum = weight_sum(ar, places, min, size, n_offsets, i, o);
            &&& sum.finite()
            &&& units(num(LEAST_SHARE)) <= units(sum) <= o * unity()
        }),
    decreases o,
{
    let n = places.len() as int;
    let k = (o - 1) as nat;
    let u = unity();
    let cells = cells_of(ar, places, min, origin_shift(ar, size, k, n_offsets), size);
    let s = sharing(cells, cells[i], n);
    let m = occupied(cells, n);
    lemma_sharing_bounded(cells, cells[i], n);
    lemma_sharing_grows(cells, cells[i], i + 1, n);
    lemma_occupied_bounded(cells, n);
    lemma_share_of_doubles(ar, s, m);
    lemma_bounds();
    unity_is_positive();
    counts_have_their_value(o);
    let w = ar.over(num(ONE), ar.times(Double::count(s), Double::count(m)));
    assert(w == cell_weight(ar, cells, i));
    let before = weight_sum(ar, places, min, size, n_offsets, i, k);
    values_order_as_doubles(num(0), num(0));
    if k == 0 {
        assert(before == num(0));
    } else {
        lemma_sum_bounded(ar, places, min, size, n_offsets, i, k);
    }
    assert(units(before) <= k * u) by {
        assert(0 * u == 0) by (nonlinear_arith);
    }
    assert(k * u + u == o * u) by (nonlinear_arith)
        requires
            o == k + 1,
    ;
    let x = units(before) + units(w);
    assert(o * u <= TWO_TO_106 * u) by (nonlinear_arith)
        requires
            o < 2 * HIDDEN,
            HIDDEN == 0x10_0000_0000_0000,
            TWO_TO_106 == 0x400_0000_0000_0000_0000_0000_0000,
            u > 0,
    ;
    let sum = ar.plus(before, w);
    assert(rounds_to(sum, x, 1));
    lemma_rounding_stays(sum, x, 1, num(LEAST_SHARE));
    lemma_rounding_stays(sum, x, 1, Double::count(o));
}

/// Declustering weights of doubles are positive.
pub proof fn weights_are_positive<const D: usize, F: Fn(Op, Double, Double) -> Double>(
    ar: Arithmetic<F>,
    places: Seq<[Double; D]>,
    size: Double,
    n_offsets: usize,
    w: Vec<Double>,
    i: int,
)
    requires
        nearest(ar),
        0 < places.len() < 2 * HIDDEN,
        n_offsets < 2 * HIDDEN,
        decluster_outcome(ar, places, size, n_offsets, Ok(w)),
        0 <= i < places.len(),
    ensures
        w@.len() == places.len(),
        w@[i].positive(),
{
    let min = choose|min: [Double; D]| #[trigger]
        crate::declustering::lower_corner(places, min) && w@ == weights_from(
            ar,
            places,
            min@,
            size,
            n_offsets as nat,
        );
    let (n, q, u, g) = (
        places.len() as int,
        n_offsets as int,
        unity(),
        units(greatest()),
    );
    lemma_bounds();
    unity_is_positive();
    lemma_sum_bounded(ar, places, min@, size, n_offsets as nat, i, n_offsets as nat);
    counts_have_their_value(places.len());
    counts_have_their_value(n_offsets as nat);
    let (a, b) = (Double::count(places.len()), Double::count(n_offsets as nat));
    let scale = ar.over(a, b);
    let sum = weight_sum(ar, places, min@, size, n_offsets as nat, i, n_offsets as nat);
    let (x, y) = ((n * u) * u, q * u);
    assert(y > 0 && 0 <= x <= (n * u) * y && x <= g * y) by (nonlinear_arith)
        requires
            x == (n * u) * u,
            y == q * u,
            0 < q,
            0 < n < 2 * HIDDEN,
            u > 0,
            g >= TWO_TO_106 * u,
            HIDDEN == 0x10_0000_0000_0000,
            TWO_TO_106 == 0x400_0000_0000_0000_0000_0000_0000,
    ;
    assert(rounds_to(scale, x, y));
    let ratio = units(num(LEAST_RATIO));
    assert(ratio * y <= x) by (nonlinear_arith)
        requires
            2 * HIDDEN * ratio == u,
            x == (n * u) * u,
            y == q * u,
            0 < q < 2 * HIDDEN,
            0 < n,
            u > 0,
            HIDDEN == 0x10_0000_0000_0000,
    ;
    lemma_rounding_stays(scale, x, y, num(LEAST_RATIO));
    lemma_rounding_stays(scale, x, y, a);
    let (su, cu, least) = (units(sum), units(scale), units(num(LEAST_SHARE)));
    let p = su * cu;
    assert(p >= u) by (nonlinear_arith)
        requires
            p == su * cu,
            least <= su,
            ratio <= cu,
            least > 0,
            least * ratio >= u,
            u > 0,
    ;
    assert(p <= g * u) by (nonlinear_arith)
        requires
            p == su * cu,
            0 < su <= q * u,
            cu <= n * u,
            0 < q < 2 * HIDDEN,
            0 < n < 2 * HIDDEN,
            g >= TWO_TO_106 * u,
            u > 0,
            HIDDEN == 0x10_0000_0000_0000,
            TWO_TO_106 == 0x400_0000_0000_0000_0000_0000_0000,
    ;
    let r = ar.times(sum, scale);
    assert(rounds_to(r, p, u));
    lemma_rounding_stays(r, p, u, num(1));
    values_order_as_doubles(num(0), r);
    assert(w@[i] == r);
}

} // verus!

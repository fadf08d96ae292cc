//! Cell declustering: each sample is weighted inversely to the number of
//! samples that share its cell of a grid, averaged over several grid origins.

use vstd::prelude::*;

use crate::arith::{num, Arithmetic, MINUS_ZERO, Op};
use crate::data::{lowest, PointSet};
use crate::double::{Double, HIDDEN, ONE};
use crate::error::{invalid, invalid_double, invalid_of, invalid_parameter, GeostatError, Message};

verus! {

/// Cell of a point: by coordinate, the number of whole cells from the shifted
/// origin.
pub open spec fn cell_of<F: Fn(Op, Double, Double) -> Double>(
    ar: Arithmetic<F>,
    p: Seq<Double>,
    min: Seq<Double>,
    shift: Double,
    size: Double,
) -> Seq<i64> {
    Seq::new(
        p.len(),
        |d: int|
            {
                let x = ar.over(ar.plus(ar.minus(p[d], min[d]), shift), size);
                x.saturated(x.floored()) as i64
            },
    )
}

/// Cells of points.
pub open spec fn cells_of<const D: usize, F: Fn(Op, Double, Double) -> Double>(
    ar: Arithmetic<F>,
    places: Seq<[Double; D]>,
    min: Seq<Double>,
    shift: Double,
    size: Double,
) -> Seq<Seq<i64>> {
    Seq::new(places.len(), |i: int| cell_of(ar, places[i]@, min, shift, size))
}

/// Number of the first `n` points in a cell.
pub open spec fn sharing(cells: Seq<Seq<i64>>, cell: Seq<i64>, n: int) -> nat
    decreases n,
{
    if n <= 0 {
        0
    } else {
        sharing(cells, cell, n - 1) + if cells[n - 1] == cell {
            1nat
        } else {
            0nat
        }
    }
}

/// Number of different cells of the first `n` points.
pub open spec fn occupied(cells: Seq<Seq<i64>>, n: int) -> nat
    decreases n,
{
    if n <= 0 {
        0
    } else {
        occupied(cells, n - 1) + if sharing(cells, cells[n - 1], n - 1) == 0 {
            1nat
        } else {
            0nat
        }
    }
}

/// Weight of point `i` for one grid origin: the cells share the weight of one,
/// the points of a cell share the cell's.
pub open spec fn cell_weight<F: Fn(Op, Double, Double) -> Double>(
    ar: Arithmetic<F>,
    cells: Seq<Seq<i64>>,
    i: int,
) -> Double {
    let n = cells.len() as int;
    ar.over(
        num(ONE),
        ar.times(
            Double::count(sharing(cells, cells[i], n)),
            Double::count(occupied(cells, n)),
        ),
    )
}

/// Shift of grid origin `o` of `n`.
pub open spec fn origin_shift<F: Fn(Op, Double, Double) -> Double>(
    ar: Arithmetic<F>,
    size: Double,
    o: nat,
    n: nat,
) -> Double {
    ar.times(size, ar.over(Double::count(o), Double::count(n)))
}

/// Sum of the weights of point `i` over the first `o` grid origins.
pub open spec fn weight_sum<const D: usize, F: Fn(Op, Double, Double) -> Double>(
    ar: Arithmetic<F>,
    places: Seq<[Double; D]>,
    min: Seq<Double>,
    size: Double,
    n_offsets: nat,
    i: int,
    o: nat,
) -> Double
    decreases o,
{
    if o == 0 {
        num(0)
    } else {
        let k = (o - 1) as nat;
        ar.plus(
            weight_sum(ar, places, min, size, n_offsets, i, k),
            cell_weight(
                ar,
                cells_of(ar, places, min, origin_shift(ar, size, k, n_offsets), size),
                i,
            ),
        )
    }
}

/// Declustering weights with the grid laid out from `min`: the mean over the
/// grid origins, scaled to sum to the number of points.
pub open spec fn weights_from<const D: usize, F: Fn(Op, Double, Double) -> Double>(
    ar: Arithmetic<F>,
    places: Seq<[Double; D]>,
    min: Seq<Double>,
    size: Double,
    n_offsets: nat,
) -> Seq<Double> {
    Seq::new(
        places.len(),
        |i: int|
            ar.times(
                weight_sum(ar, places, min, size, n_offsets, i, n_offsets),
                ar.over(Double::count(places.len()), Double::count(n_offsets)),
            ),
    )
}

/// `min` is the lower corner of the points.
pub open spec fn lower_corner<const D: usize>(places: Seq<[Double; D]>, min: [Double; D]) -> bool {
    forall|d: int| 0 <= d < D ==> lowest(#[trigger] min@[d], places, d)
}

/// A cell size can be used.
pub open spec fn size_ok(size: Double) -> bool {
    size.is_positive() && size.is_finite()
}

/// The error refuses a cell size.
pub open spec fn size_refused(e: GeostatError, size: Double) -> bool {
    invalid_of(e, "cell size must be finite and > 0, got {}"@, seq![size])
}

/// What declustering gives.
pub open spec fn decluster_outcome<const D: usize, F: Fn(Op, Double, Double) -> Double>(
    ar: Arithmetic<F>,
    places: Seq<[Double; D]>,
    size: Double,
    n_offsets: usize,
    r: Result<Vec<Double>, GeostatError>,
) -> bool {
    if !size_ok(size) {
        r matches Err(e) && size_refused(e, size)
    } else if n_offsets == 0 {
        r matches Err(e) && invalid(e, "n_offsets must be at least 1"@)
    } else {
        r matches Ok(w) && exists|min: [Double; D]| #[trigger]
            lower_corner(places, min) && w@ == weights_from(
                ar,
                places,
                min@,
                size,
                n_offsets as nat,
            )
    }
}

/// The cells, as lists.
pub open spec fn cell_views(cells: Seq<Vec<i64>>) -> Seq<Seq<i64>> {
    Seq::new(cells.len(), |i: int| cells[i]@)
}

fn same_cell(a: &Vec<i64>, b: &Vec<i64>) -> (s: bool)
    ensures
        s == (a@ == b@),
{
    if a.len() != b.len() {
        return false;
    }
    for d in 0..a.len()
        invariant
            a.len() == b.len(),
            forall|i: int| 0 <= i < d ==> a@[i] == b@[i],
    {
        if a[d] != b[d] {
            return false;
        }
    }
    assert(a@ =~= b@);
    true
}

fn count_sharing(cells: &Vec<Vec<i64>>, cell: &Vec<i64>, n: usize) -> (c: usize)
    requires
        n <= cells.len(),
    ensures
        c == sharing(cell_views(cells@), cell@, n as int),
        c <= n,
{
    let mut c: usize = 0;
    for i in 0..n
        invariant
            n <= cells.len(),
            c == sharing(cell_views(cells@), cell@, i as int),
            c <= i,
    {
        if same_cell(&cells[i], cell) {
            c = c + 1;
        }
    }
    c
}

/// Cells of all points for one grid origin.
fn find_cells<const D: usize, F: Fn(Op, Double, Double) -> Double>(
    coords: &Vec<[Double; D]>,
    min: &[Double; D],
    shift: Double,
    size: Double,
    ar: &Arithmetic<F>,
) -> (cells: Vec<Vec<i64>>)
    requires
        ar.total(),
    ensures
        cell_views(cells@) == cells_of(*ar, coords@, min@, shift, size),
        cells@.len() == coords@.len(),
{
    let ghost want = cells_of(*ar, coords@, min@, shift, size);
    let mut cells: Vec<Vec<i64>> = Vec::new();
    for i in 0..coords.len()
        invariant
            ar.total(),
            want == cells_of(*ar, coords@, min@, shift, size),
            cells.len() == i,
            forall|k: int| 0 <= k < i ==> (#[trigger] cells@[k])@ == want[k],
    {
        let p: [Double; D] = coords[i];
        let mut cell: Vec<i64> = Vec::new();
        for d in 0..D
            invariant
                ar.total(),
                i < coords.len(),
                p == coords@[i as int],
                want == cells_of(*ar, coords@, min@, shift, size),
                cell@ =~= want[i as int].take(d as int),
        {
            let x: Double = ar.over(ar.plus(ar.minus(p[d], min[d]), shift), size);
            cell.push(x.floor());
        }
        assert(cell@ =~= want[i as int]);
        cells.push(cell);
    }
    assert(cell_views(cells@) =~= want);
    cells
}

/// Declustering weights with the grid laid out from `min`.
fn weigh<const D: usize, F: Fn(Op, Double, Double) -> Double>(
    data: &PointSet<D>,
    min: &[Double; D],
    size: Double,
    n_offsets: usize,
    ar: &Arithmetic<F>,
) -> (w: Vec<Double>)
    requires
        ar.total(),
        data.well_formed(),
        data.places().len() < 2 * HIDDEN,
        0 < n_offsets < 2 * HIDDEN,
    ensures
        w@ == weights_from(*ar, data.places(), min@, size, n_offsets as nat),
{
    let ghost ps = data.places();
    let n: usize = data.len();
    let mut sums: Vec<Double> = Vec::new();
    for i in 0..n
        invariant
            n == ps.len(),
            sums.len() == i,
            forall|k: int|
                0 <= k < i ==> #[trigger] sums@[k] == weight_sum(
                    *ar,
                    ps,
                    min@,
                    size,
                    n_offsets as nat,
                    k,
                    0,
                ),
    {
        sums.push(Double::zero());
    }
    for o in 0..n_offsets
        invariant
            ar.total(),
            data.well_formed(),
            ps == data.places(),
            n == ps.len(),
            n < 2 * HIDDEN,
            0 < n_offsets < 2 * HIDDEN,
            sums.len() == n,
            forall|k: int|
                0 <= k < n ==> #[trigger] sums@[k] == weight_sum(
                    *ar,
                    ps,
                    min@,
                    size,
                    n_offsets as nat,
                    k,
                    o as nat,
                ),
    {
        let shift: Double = ar.times(
            size,
            ar.over(Double::from_count(o), Double::from_count(n_offsets)),
        );
        let cells: Vec<Vec<i64>> = find_cells(data.coords(), min, shift, size, ar);
        let ghost all = cell_views(cells@);
        let mut used: usize = 0;
        for i in 0..n
            invariant
                n == cells.len(),
                all == cell_views(cells@),
                used == occupied(all, i as int),
                used <= i,
        {
            if count_sharing(&cells, &cells[i], i) == 0 {
                used = used + 1;
            }
        }
        let ghost before = sums@;
        let mut next: Vec<Double> = Vec::new();
        for i in 0..n
            invariant
                ar.total(),
                n == cells.len(),
                n < 2 * HIDDEN,
                all == cell_views(cells@),
                used == occupied(all, n as int),
                used <= n,
                sums@ == before,
                sums.len() == n,
                next.len() == i,
                forall|k: int|
                    0 <= k < i ==> #[trigger] next@[k] == ar.plus(
                        before[k],
                        cell_weight(*ar, all, k),
                    ),
        {
            let c: usize = count_sharing(&cells, &cells[i], n);
            let w: Double = ar.over(
                num(ONE),
                ar.times(Double::from_count(c), Double::from_count(used)),
            );
            next.push(ar.plus(sums[i], w));
        }
        sums = next;
    }
    let scale: Double = ar.over(Double::from_count(n), Double::from_count(n_offsets));
    let ghost want = weights_from(*ar, ps, min@, size, n_offsets as nat);
    let mut w: Vec<Double> = Vec::new();
    for i in 0..n
        invariant
            ar.total(),
            n == ps.len(),
            sums.len() == n,
            scale == ar.over(Double::count(ps.len()), Double::count(n_offsets as nat)),
            forall|k: int|
                0 <= k < n ==> #[trigger] sums@[k] == weight_sum(
                    *ar,
                    ps,
                    min@,
                    size,
                    n_offsets as nat,
                    k,
                    n_offsets as nat,
                ),
            want == weights_from(*ar, ps, min@, size, n_offsets as nat),
            w@ =~= want.take(i as int),
    {
        w.push(ar.times(sums[i], scale));
    }
    assert(w@ =~= want);
    w
}

/// Cell-declustering weights for a cell size, the same in every dimension,
/// averaged over `n_offsets` systematic grid origins and scaled to sum to the
/// number of points.
pub fn cell_declustering_weights<const D: usize, F: Fn(Op, Double, Double) -> Double>(
    data: &PointSet<D>,
    cell_size: Double,
    n_offsets: usize,
    ar: &Arithmetic<F>,
) -> (r: Result<Vec<Double>, GeostatError>)
    requires
        ar.total(),
        data.well_formed(),
        0 < data.places().len() < 2 * HIDDEN,
        n_offsets < 2 * HIDDEN,
    ensures
        decluster_outcome(*ar, data.places(), cell_size, n_offsets, r),
{
    if !cell_size.is_positive() || !cell_size.is_finite() {
        return Err(invalid_double("cell size must be finite and > 0, got {}", cell_size));
    }
    if n_offsets == 0 {
        return Err(invalid_parameter("n_offsets must be at least 1"));
    }
    let (min, _max): ([Double; D], [Double; D]) = data.bbox();
    assert(lower_corner(data.places(), min));
    Ok(weigh(data, &min, cell_size, n_offsets, ar))
}

/// Result of a scan of cell sizes.
#[derive(Debug, PartialEq, Eq)]
pub struct DeclusterScan {
    /// Cell size whose declustered mean is the extreme requested.
    pub best_size: Double,
    /// Declustered mean at that size.
    pub best_mean: Double,
    /// Weights at that size.
    pub weights: Vec<Double>,
    /// Every size scanned, with its declustered mean.
    pub trace: Vec<(Double, Double)>,
}

/// Size number `k` of a scan of `n` sizes.
pub open spec fn scan_size<F: Fn(Op, Double, Double) -> Double>(
    ar: Arithmetic<F>,
    min: Double,
    max: Double,
    n: nat,
    k: nat,
) -> Double {
    if n == 1 {
        min
    } else {
        ar.plus(
            min,
            ar.over(
                ar.times(ar.minus(max, min), Double::count(k)),
                Double::count((n - 1) as nat),
            ),
        )
    }
}

/// Declustered mean of values.
pub open spec fn weighted_average<F: Fn(Op, Double, Double) -> Double>(
    ar: Arithmetic<F>,
    w: Seq<Double>,
    v: Seq<Double>,
) -> Double {
    ar.over(ar.dot_from(num(MINUS_ZERO), w, v, v.len() as int), Double::count(v.len()))
}

/// Size `k` is better than size `b`.
pub open spec fn beats(means: Seq<Double>, minimize: bool, k: int, b: int) -> bool {
    if minimize {
        means[k].lt(means[b])
    } else {
        means[b].lt(means[k])
    }
}

/// Best of the first `n` sizes, the first of several.
pub open spec fn best_of(means: Seq<Double>, minimize: bool, n: int) -> int
    decreases n,
{
    if n <= 1 {
        0
    } else {
        let b = best_of(means, minimize, n - 1);
        if beats(means, minimize, n - 1, b) {
            n - 1
        } else {
            b
        }
    }
}

/// Declustered mean at size number `k`.
pub open spec fn scan_mean<const D: usize, F: Fn(Op, Double, Double) -> Double>(
    ar: Arithmetic<F>,
    data: &PointSet<D>,
    corner: Seq<Double>,
    min: Double,
    max: Double,
    n_sizes: nat,
    n_offsets: nat,
    k: nat,
) -> Double {
    weighted_average(
        ar,
        weights_from(
            ar,
            data.places(),
            corner,
            scan_size(ar, min, max, n_sizes, k),
            n_offsets,
        ),
        data.attributes(),
    )
}

/// Declustered means of all sizes.
pub open spec fn scan_means<const D: usize, F: Fn(Op, Double, Double) -> Double>(
    ar: Arithmetic<F>,
    data: &PointSet<D>,
    corner: Seq<Double>,
    min: Double,
    max: Double,
    n_sizes: nat,
    n_offsets: nat,
) -> Seq<Double> {
    Seq::new(
        n_sizes,
        |k: int| scan_mean(ar, data, corner, min, max, n_sizes, n_offsets, k as nat),
    )
}

/// The sizes before `k` can be used.
pub open spec fn sizes_ok<F: Fn(Op, Double, Double) -> Double>(
    ar: Arithmetic<F>,
    min: Double,
    max: Double,
    n: nat,
    k: nat,
) -> bool {
    forall|i: nat| i < k ==> size_ok(#[trigger] scan_size(ar, min, max, n, i))
}

/// What a scan of valid sizes gives.
pub open spec fn is_scan<const D: usize, F: Fn(Op, Double, Double) -> Double>(
    ar: Arithmetic<F>,
    data: &PointSet<D>,
    corner: Seq<Double>,
    min: Double,
    max: Double,
    n_sizes: nat,
    n_offsets: nat,
    minimize: bool,
    s: DeclusterScan,
) -> bool {
    let means = scan_means(ar, data, corner, min, max, n_sizes, n_offsets);
    let b = best_of(means, minimize, n_sizes as int);
    &&& s.trace@ == Seq::new(
        n_sizes,
        |k: int| (scan_size(ar, min, max, n_sizes, k as nat), means[k]),
    )
    &&& s.best_size == scan_size(ar, min, max, n_sizes, b as nat)
    &&& s.best_mean == means[b]
    &&& s.weights@ == weights_from(ar, data.places(), corner, s.best_size, n_offsets)
}

/// What a scan gives.
pub open spec fn scan_outcome<const D: usize, F: Fn(Op, Double, Double) -> Double>(
    ar: Arithmetic<F>,
    data: &PointSet<D>,
    min: Double,
    max: Double,
    n_sizes: usize,
    n_offsets: usize,
    minimize: bool,
    r: Result<DeclusterScan, GeostatError>,
) -> bool {
    let n = n_sizes as nat;
    if !min.is_positive() || !min.le(max) {
        r matches Err(e) && invalid_of(e, "invalid scan range [{}, {}]"@, seq![min, max])
    } else if n_sizes == 0 {
        r matches Err(e) && invalid(e, "n_sizes must be at least 1"@)
    } else if size_ok(scan_size(ar, min, max, n, 0)) && n_offsets == 0 {
        r matches Err(e) && invalid(e, "n_offsets must be at least 1"@)
    } else if !sizes_ok(ar, min, max, n, n) {
        r matches Err(e) && exists|k: nat|
            k < n && sizes_ok(ar, min, max, n, k) && !size_ok(
                #[trigger] scan_size(ar, min, max, n, k),
            ) && size_refused(e, scan_size(ar, min, max, n, k))
    } else {
        r matches Ok(s) && exists|corner: [Double; D]| #[trigger]
            lower_corner(data.places(), corner) && is_scan(
                ar,
                data,
                corner@,
                min,
                max,
                n,
                n_offsets as nat,
                minimize,
                s,
            )
    }
}

/// Scans cell sizes between `min_size` and `max_size` and keeps the one whose
/// declustered mean is least (`minimize`, for data clustered in high values) or
/// greatest.
pub fn decluster_scan<const D: usize, F: Fn(Op, Double, Double) -> Double>(
    data: &PointSet<D>,
    min_size: Double,
    max_size: Double,
    n_sizes: usize,
    n_offsets: usize,
    minimize: bool,
    ar: &Arithmetic<F>,
) -> (r: Result<DeclusterScan, GeostatError>)
    requires
        ar.total(),
        data.well_formed(),
        0 < data.places().len() < 2 * HIDDEN,
        n_sizes < 2 * HIDDEN,
        n_offsets < 2 * HIDDEN,
    ensures
        scan_outcome(*ar, data, min_size, max_size, n_sizes, n_offsets, minimize, r),
{
    if !min_size.is_positive() || !min_size.le(max_size) {
        let mut doubles: Vec<Double> = Vec::new();
        doubles.push(min_size);
        doubles.push(max_size);
        assert(doubles@ =~= seq![min_size, max_size]);
        return Err(
            GeostatError::InvalidParameter(
                Message::with("invalid scan range [{}, {}]".to_owned(), doubles),
            ),
        );
    }
    if n_sizes == 0 {
        return Err(invalid_parameter("n_sizes must be at least 1"));
    }
    let (corner, _max): ([Double; D], [Double; D]) = data.bbox();
    assert(lower_corner(data.places(), corner));
    let ghost n = n_sizes as nat;
    let ghost means = scan_means(
        *ar,
        data,
        corner@,
        min_size,
        max_size,
        n,
        n_offsets as nat,
    );
    let mut best: usize = 0;
    let mut best_size: Double = Double::zero();
    let mut best_mean: Double = Double::zero();
    let mut best_weights: Vec<Double> = Vec::new();
    let mut trace: Vec<(Double, Double)> = Vec::new();
    for k in 0..n_sizes
        invariant
            ar.total(),
            data.well_formed(),
            0 < data.places().len() < 2 * HIDDEN,
            0 < n_sizes < 2 * HIDDEN,
            n_offsets < 2 * HIDDEN,
            k > 0 ==> n_offsets > 0,
            min_size.is_positive(),
            min_size.le(max_size),
            n == n_sizes,
            means == scan_means(*ar, data, corner@, min_size, max_size, n, n_offsets as nat),
            sizes_ok(*ar, min_size, max_size, n, k as nat),
            trace@ =~= Seq::new(
                k as nat,
                |i: int| (scan_size(*ar, min_size, max_size, n, i as nat), means[i]),
            ),
            k > 0 ==> {
                &&& best == best_of(means, minimize, k as int)
                &&& best < k
                &&& best_size == scan_size(*ar, min_size, max_size, n, best as nat)
                &&& best_mean == means[best as int]
                &&& best_weights@ == weights_from(
                    *ar,
                    data.places(),
                    corner@,
                    best_size,
                    n_offsets as nat,
                )
            },
    {
        let size: Double = if n_sizes == 1 {
            min_size
        } else {
            ar.plus(
                min_size,
                ar.over(
                    ar.times(ar.minus(max_size, min_size), Double::from_count(k)),
                    Double::from_count(n_sizes - 1),
                ),
            )
        };
        assert(size == scan_size(*ar, min_size, max_size, n, k as nat));
        if !size.is_positive() || !size.is_finite() {
            assert(!size_ok(scan_size(*ar, min_size, max_size, n, k as nat)));
            assert(!sizes_ok(*ar, min_size, max_size, n, n));
            return Err(invalid_double("cell size must be finite and > 0, got {}", size));
        }
        if n_offsets == 0 {
            return Err(invalid_parameter("n_offsets must be at least 1"));
        }
        let weights: Vec<Double> = weigh(data, &corner, size, n_offsets, ar);
        let sum: Double = ar.dot(num(MINUS_ZERO), &weights, data.values(), data.len());
        let mean: Double = ar.over(sum, Double::from_count(data.len()));
        assert(mean == means[k as int]);
        trace.push((size, mean));
        let better: bool = if k == 0 {
            true
        } else if minimize {
            mean.lt(best_mean)
        } else {
            best_mean.lt(mean)
        };
        if better {
            best = k;
            best_size = size;
            best_mean = mean;
            best_weights = weights;
        }
    }
    let s: DeclusterScan = DeclusterScan { best_size, best_mean, weights: best_weights, trace };
    assert(is_scan(
        *ar,
        data,
        corner@,
        min_size,
        max_size,
        n,
        n_offsets as nat,
        minimize,
        s,
    ));
    Ok(s)
}

/// Every point has at least itself in its cell.
proof fn lemma_sharing(cells: Seq<Seq<i64>>, i: int, n: int)
    requires
        0 <= i < n <= cells.len(),
    ensures
        1 <= sharing(cells, cells[i], n) <= n,
    decreases n,
{
    lemma_sharing_bound(cells, cells[i], n - 1);
    if i < n - 1 {
        lemma_sharing(cells, i, n - 1);
    }
}

proof fn lemma_sharing_bound(cells: Seq<Seq<i64>>, cell: Seq<i64>, n: int)
    requires
        0 <= n <= cells.len(),
    ensures
        sharing(cells, cell, n) <= n,
    decreases n,
{
    if n > 0 {
        lemma_sharing_bound(cells, cell, n - 1);
    }
}

/// No weight is computed by dividing by zero: a point shares its cell with at
/// least itself, and at least one cell is occupied.
pub proof fn cells_are_occupied(cells: Seq<Seq<i64>>, i: int)
    requires
        0 <= i < cells.len(),
    ensures
        1 <= sharing(cells, cells[i], cells.len() as int) <= cells.len(),
        1 <= occupied(cells, cells.len() as int) <= cells.len(),
{
    lemma_sharing(cells, i, cells.len() as int);
    lemma_occupied(cells, cells.len() as int);
}

proof fn lemma_occupied(cells: Seq<Seq<i64>>, n: int)
    requires
        0 < n <= cells.len(),
    ensures
        1 <= occupied(cells, n) <= n,
    decreases n,
{
    reveal_with_fuel(occupied, 2);
    reveal_with_fuel(sharing, 2);
    if n > 1 {
        lemma_occupied(cells, n - 1);
    }
}

} // verus!

//! Declustering and calibration over an arithmetic without rounding: what a datum weighs,
//! which cell size a scan keeps, and what calibration pairs give.

use vstd::prelude::*;

use crate::algebra::lemma_minus_undoes;
use crate::arith::{num, Arithmetic, Op};
use crate::data::{lowest, PointSet};
use crate::declustering::{
    best_of, cell_weight, cells_of, decluster_outcome, occupied, origin_shift, scan_outcome,
    sharing, weight_sum, weights_from, DeclusterScan,
};
use crate::double::{Double, ONE};
use crate::error::GeostatError;
use crate::exact::{
    all_numbers, closed, exact, lemma_dot_start, lemma_span_closed, span_sum, times_associates,
    Numbers,
};
use crate::exact_kriging::{counts, lemma_average_closed, lemma_dot_is_span, lemma_total_closed};
use crate::fits::{joint_deviations, statistics_are_those_of_the_sample};
use crate::indicator::{calibrated, column, MarkovBayesCalibration};

verus! {

/// Cells of points, by the number of whole cells from the corner of a shifted grid.
pub open spec fn cells_with<const D: usize, F: Fn(Op, Double, Double) -> Double>(
    ar: Arithmetic<F>,
    places: Seq<[Double; D]>,
    corner: Seq<Double>,
    shift: Double,
    size: Double,
) -> Seq<Seq<i64>> {
    Seq::new(
        places.len(),
        |i: int|
            Seq::new(
                places[i]@.len(),
                |d: int|
                    {
                        let x = ar.over(
                            ar.plus(ar.minus(places[i]@[d], corner[d]), shift),
                            size,
                        );
                        x.saturated(x.floored()) as i64
                    },
            ),
    )
}

/// Number of data in the same cell as datum `i`.
pub open spec fn crowd(cells: Seq<Seq<i64>>, i: int) -> nat {
    cells.to_multiset().count(cells[i])
}

/// Number of different cells.
pub open spec fn cells_in_use(cells: Seq<Seq<i64>>) -> nat {
    cells.to_set().len()
}

/// Parts that data get of a grid: cells share alike, and so do the data in a cell.
pub open spec fn shared_out<F: Fn(Op, Double, Double) -> Double>(
    ar: Arithmetic<F>,
    cells: Seq<Seq<i64>>,
    parts: Seq<Double>,
) -> bool {
    &&& parts.len() == cells.len()
    &&& forall|i: int|
        0 <= i < parts.len() ==> ar.times(
            ar.times(#[trigger] parts[i], Double::count(crowd(cells, i))),
            Double::count(cells_in_use(cells)),
        ) == num(ONE)
}

/// Row `i` of what the grids give.
pub open spec fn parts_of(parts: Seq<Seq<Double>>, i: int) -> Seq<Double> {
    Seq::new(parts.len(), |o: int| parts[o][i])
}

proof fn lemma_crowd(cells: Seq<Seq<i64>>, cell: Seq<i64>, n: int)
    requires
        0 <= n <= cells.len(),
    ensures
        sharing(cells, cell, n) == cells.take(n).to_multiset().count(cell),
    decreases n,
{
    broadcast use vstd::seq_lib::group_to_multiset_ensures;

    if n > 0 {
        lemma_crowd(cells, cell, n - 1);
        assert(cells.take(n) =~= cells.take(n - 1).push(cells[n - 1]));
    } else {
        assert(cells.take(0) =~= Seq::empty());
    }
}

proof fn lemma_cells_in_use(cells: Seq<Seq<i64>>, n: int)
    requires
        0 <= n <= cells.len(),
    ensures
        cells.take(n).to_set().finite(),
        occupied(cells, n) == cells.take(n).to_set().len(),
    decreases n,
{
    broadcast use vstd::seq_lib::group_to_multiset_ensures;

    if n > 0 {
        lemma_cells_in_use(cells, n - 1);
        let before = cells.take(n - 1);
        let cell = cells[n - 1];
        assert(cells.take(n) =~= before.push(cell));
        lemma_crowd(cells, cell, n - 1);
        assert(before.contains(cell) <==> before.to_multiset().count(cell) > 0);
        assert(cells.take(n).to_set() =~= before.to_set().insert(cell)) by {
            assert forall|x: Seq<i64>| cells.take(n).to_set().contains(x) <==> #[trigger]
                before.to_set().insert(cell).contains(x) by {
                if before.contains(x) {
                    let j = choose|j: int| 0 <= j < before.len() && before[j] == x;
                    assert(cells.take(n)[j] == x);
                }
                if cells.take(n).contains(x) {
                    let j = choose|j: int| 0 <= j < n && cells.take(n)[j] == x;
                    if j < n - 1 {
                        assert(before[j] == x);
                    }
                }
                assert(cells.take(n)[n - 1] == cell);
            }
        }
    } else {
        assert(cells.take(0).to_set() =~= Set::<Seq<i64>>::empty());
    }
}

proof fn lemma_shared_out<const D: usize, F: Fn(Op, Double, Double) -> Double>(
    ar: Arithmetic<F>,
    c: Numbers,
    places: Seq<[Double; D]>,
    corner: Seq<Double>,
    shift: Double,
    size: Double,
)
    requires
        exact(ar, c),
        forall|k: nat| 1 <= k <= places.len() ==> c(#[trigger] Double::count(k)) && Double::count(k) != num(0),
    ensures
        ({
            let cells = cells_of(ar, places, corner, shift, size);
            let parts = Seq::new(places.len(), |i: int| cell_weight(ar, cells, i));
            &&& cells == cells_with(ar, places, corner, shift, size)
            &&& shared_out(ar, cells, parts)
            &&& all_numbers(c, parts)
        }),
{
    let cells = cells_of(ar, places, corner, shift, size);
    let want = cells_with(ar, places, corner, shift, size);
    let parts = Seq::new(places.len(), |i: int| cell_weight(ar, cells, i));
    let n = cells.len() as int;
    assert forall|i: int| 0 <= i < n implies #[trigger] cells[i] == want[i] by {
        assert(cells[i] =~= want[i]);
    }
    assert(cells =~= want);
    assert(cells.take(n) =~= cells);
    lemma_cells_in_use(cells, n);
    assert forall|i: int| 0 <= i < parts.len() implies c(#[trigger] parts[i]) && ar.times(
        ar.times(parts[i], Double::count(crowd(cells, i))),
        Double::count(cells_in_use(cells)),
    ) == num(ONE) by {
        crate::declustering::cells_are_occupied(cells, i);
        lemma_crowd(cells, cells[i], n);
        let (a, b) = (Double::count(crowd(cells, i)), Double::count(cells_in_use(cells)));
        assert(c(a) && c(b) && a != num(0) && b != num(0));
        crate::algebra::lemma_product_not_zero(ar, c, a, b);
        let p = parts[i];
        closed(ar, c, num(ONE), ar.times(a, b));
        times_associates(ar, c, p, a, b);
    }
}

/// Declustering weights: each grid origin shares one among the cells in use and each cell's
/// part among its data. The weight of a datum times the number of origins is the number of
/// data times the sum of its parts; the origins are evenly spread over one cell size.
pub proof fn weights_share_cells_and_data<const D: usize, F: Fn(Op, Double, Double) -> Double>(
    ar: Arithmetic<F>,
    c: Numbers,
    places: Seq<[Double; D]>,
    size: Double,
    n_offsets: usize,
    w: Vec<Double>,
)
    requires
        exact(ar, c),
        c(size),
        0 < places.len(),
        forall|k: nat| 1 <= k <= places.len() ==> c(#[trigger] Double::count(k)) && Double::count(k) != num(0),
        forall|k: nat| k <= n_offsets ==> c(#[trigger] Double::count(k)),
        Double::count(n_offsets as nat) != num(0),
        decluster_outcome(ar, places, size, n_offsets, Ok(w)),
    ensures
        exists|corner: Seq<Double>, shifts: Seq<Double>, parts: Seq<Seq<Double>>|
            #![trigger cells_with(ar, places, corner, shifts[0], size), parts[0]]
            {
                &&& corner.len() == D
                &&& forall|d: int| 0 <= d < D ==> lowest(#[trigger] corner[d], places, d)
                &&& shifts.len() == n_offsets && parts.len() == n_offsets
                &&& forall|o: int|
                    0 <= o < n_offsets ==> {
                        &&& ar.times(#[trigger] shifts[o], Double::count(n_offsets as nat))
                            == ar.times(size, Double::count(o as nat))
                        &&& shared_out(
                            ar,
                            cells_with(ar, places, corner, shifts[o], size),
                            parts[o],
                        )
                    }
                &&& w@.len() == places.len()
                &&& forall|i: int|
                    0 <= i < places.len() ==> ar.times(
                        #[trigger] w@[i],
                        Double::count(n_offsets as nat),
                    ) == ar.times(
                        ar.accumulated(parts_of(parts, i)),
                        Double::count(places.len()),
                    )
            },
{
    let n = n_offsets as nat;
    let q = Double::count(n);
    let np = Double::count(places.len());
    let min = choose|min: [Double; D]| #[trigger]
        crate::declustering::lower_corner(places, min) && w@ == weights_from(
            ar,
            places,
            min@,
            size,
            n,
        );
    let corner = min@;
    let shifts = Seq::new(n, |o: int| origin_shift(ar, size, o as nat, n));
    let parts = Seq::new(
        n,
        |o: int|
            Seq::new(
                places.len(),
                |i: int| cell_weight(ar, cells_of(ar, places, corner, shifts[o], size), i),
            ),
    );
    assert forall|o: int| 0 <= o < n implies ar.times(#[trigger] shifts[o], q) == ar.times(
        size,
        Double::count(o as nat),
    ) && shared_out(ar, cells_with(ar, places, corner, shifts[o], size), parts[o])
        && all_numbers(c, parts[o]) by {
        let k = Double::count(o as nat);
        assert(c(Double::count(o as nat)) && c(Double::count(n)));
        closed(ar, c, k, q);
        closed(ar, c, size, ar.over(k, q));
        times_associates(ar, c, size, ar.over(k, q), q);
        lemma_shared_out(ar, c, places, corner, shifts[o], size);
    }
    assert forall|i: int| 0 <= i < places.len() implies ar.times(#[trigger] w@[i], q) == ar.times(
        ar.accumulated(parts_of(parts, i)),
        np,
    ) by {
        let row = parts_of(parts, i);
        assert forall|o: int| 0 <= o < row.len() implies c(#[trigger] row[o]) by {
            assert(ar.times(shifts[o], q) == ar.times(size, Double::count(o as nat)));
            assert(c(parts[o][i]));
        }
        lemma_sums(ar, places, corner, size, n, i, row, n);
        assert(row.take(n as int) =~= row);
        let s = ar.accumulated(row);
        lemma_total_closed(ar, c, row);
        assert(c(Double::count(places.len())) && c(Double::count(n)));
        closed(ar, c, np, q);
        closed(ar, c, s, ar.over(np, q));
        times_associates(ar, c, s, ar.over(np, q), q);
    }
    assert(cells_with(ar, places, corner, shifts[0], size).len() == places.len());
    assert(parts[0].len() == places.len());
}

proof fn lemma_sums<const D: usize, F: Fn(Op, Double, Double) -> Double>(
    ar: Arithmetic<F>,
    places: Seq<[Double; D]>,
    corner: Seq<Double>,
    size: Double,
    n: nat,
    i: int,
    row: Seq<Double>,
    o: nat,
)
    requires
        o <= n,
        row.len() == n,
        forall|k: int|
            0 <= k < n ==> #[trigger] row[k] == cell_weight(
                ar,
                cells_of(ar, places, corner, origin_shift(ar, size, k as nat, n), size),
                i,
            ),
    ensures
        weight_sum(ar, places, corner, size, n, i, o) == ar.accumulated(row.take(o as int)),
    decreases o,
{
    if o > 0 {
        let k = (o - 1) as nat;
        lemma_sums(ar, places, corner, size, n, i, row, k);
        assert(row.take(o as int).drop_last() =~= row.take(k as int));
        assert(row.take(o as int).last() == row[k as int]);
    }
}

/// A scan of cell sizes lists evenly spaced sizes with the means of the values under their
/// declustering weights, and keeps a size whose mean no other undercuts, or exceeds where
/// the greatest is sought.
pub proof fn scans_keep_the_extreme_mean<const D: usize, F: Fn(Op, Double, Double) -> Double>(
    ar: Arithmetic<F>,
    c: Numbers,
    data: &PointSet<D>,
    min: Double,
    max: Double,
    n_sizes: usize,
    n_offsets: usize,
    minimize: bool,
    s: DeclusterScan,
)
    requires
        exact(ar, c),
        c(min),
        c(max),
        counts(ar, c, data.attributes().len()),
        data.attributes().len() == data.places().len(),
        forall|k: nat| k < n_sizes ==> c(#[trigger] Double::count(k)),
        n_sizes > 1 ==> Double::count((n_sizes - 1) as nat) != num(0),
        scan_outcome(ar, data, min, max, n_sizes, n_offsets, minimize, Ok(s)),
        forall|k: int| 0 <= k < s.trace@.len() ==> !(#[trigger] s.trace@[k]).1.nan(),
        all_numbers(c, data.attributes()),
        forall|corner: Seq<Double>, k: int|
            0 <= k < n_sizes ==> all_numbers(
                c,
                #[trigger] weights_from(
                    ar,
                    data.places(),
                    corner,
                    s.trace@[k].0,
                    n_offsets as nat,
                ),
            ),
    ensures
        s.trace@.len() == n_sizes,
        s.trace@[0].0 == min,
        n_sizes > 1 ==> s.trace@.last().0 == max,
        n_sizes > 1 ==> forall|k: int|
            0 <= k < n_sizes ==> ar.times(
                ar.minus((#[trigger] s.trace@[k]).0, min),
                Double::count((n_sizes - 1) as nat),
            ) == ar.times(ar.minus(max, min), Double::count(k as nat)),
        exists|b: int|
            0 <= b < n_sizes && #[trigger] s.trace@[b] == (s.best_size, s.best_mean),
        forall|k: int|
            0 <= k < n_sizes ==> if minimize {
                s.best_mean.at_most((#[trigger] s.trace@[k]).1)
            } else {
                s.trace@[k].1.at_most(s.best_mean)
            },
        exists|corner: Seq<Double>| #[trigger] corner.len() == D && {
            &&& s.weights@ == weights_from(
                ar,
                data.places(),
                corner,
                s.best_size,
                n_offsets as nat,
            )
            &&& forall|k: int|
                0 <= k < n_sizes ==> ar.times(
                    (#[trigger] s.trace@[k]).1,
                    Double::count(data.attributes().len()),
                ) == span_sum(
                    ar,
                    data.attributes(),
                    weights_from(
                        ar,
                        data.places(),
                        corner,
                        s.trace@[k].0,
                        n_offsets as nat,
                    ),
                    0,
                    data.attributes().len() as int,
                )
        },
{
    let n = n_sizes as nat;
    let corner = choose|corner: [Double; D]| #[trigger]
        crate::declustering::lower_corner(data.places(), corner) && crate::declustering::is_scan(
            ar,
            data,
            corner@,
            min,
            max,
            n,
            n_offsets as nat,
            minimize,
            s,
        );
    let means = crate::declustering::scan_means(
        ar,
        data,
        corner@,
        min,
        max,
        n,
        n_offsets as nat,
    );
    assert forall|k: int| 0 <= k < n implies !(#[trigger] means[k]).nan() by {
        assert(s.trace@[k].1 == means[k]);
    }
    lemma_best(means, minimize, n as int);
    let b = best_of(means, minimize, n as int);
    assert(s.trace@[b] == (s.best_size, s.best_mean));
    assert forall|k: int| 0 <= k < n implies if minimize {
        s.best_mean.at_most((#[trigger] s.trace@[k]).1)
    } else {
        s.trace@[k].1.at_most(s.best_mean)
    } by {
        assert(s.trace@[k].1 == means[k]);
    }
    if n > 1 {
        let last = Double::count((n - 1) as nat);
        let range = ar.minus(max, min);
        lemma_minus_undoes(ar, c, max, min);
        assert forall|k: int| 0 <= k < n implies ar.times(
            ar.minus((#[trigger] s.trace@[k]).0, min),
            last,
        ) == ar.times(range, Double::count(k as nat)) by {
            let q = Double::count(k as nat);
            assert(c(Double::count(k as nat)) && c(Double::count((n - 1) as nat)));
            closed(ar, c, range, q);
            closed(ar, c, ar.times(range, q), last);
            lemma_minus_undoes(ar, c, ar.over(ar.times(range, q), last), min);
        }
        // The ends.
        assert(c(Double::count(0)) && c(Double::count((n - 1) as nat)));
        assert(Double::count(0) == num(0));
        closed(ar, c, range, num(0));
        closed(ar, c, num(0), last);
        closed(ar, c, last, num(0));
        crate::algebra::lemma_quotient_is(ar, c, num(0), num(0), last);
        closed(ar, c, min, num(0));
        assert(s.trace@[0].0 == min);
        closed(ar, c, range, last);
        crate::algebra::lemma_quotient_is(ar, c, range, ar.times(range, last), last);
        assert(s.trace@[n - 1].0 == max);
    } else {
        assert(s.trace@[0].0 == min);
    }
    let v = data.attributes();
    assert forall|k: int| 0 <= k < n implies ar.times(
        (#[trigger] s.trace@[k]).1,
        Double::count(v.len()),
    ) == span_sum(
        ar,
        v,
        weights_from(ar, data.places(), corner@, s.trace@[k].0, n_offsets as nat),
        0,
        v.len() as int,
    ) by {
        let w = weights_from(ar, data.places(), corner@, s.trace@[k].0, n_offsets as nat);
        lemma_dot_start(ar, c, w, v, v.len() as int);
        lemma_dot_is_span(ar, c, num(0), w, v, v.len() as int);
        lemma_span_closed(ar, c, v, w, 0, v.len() as int);
        let t = span_sum(ar, v, w, 0, v.len() as int);
        closed(ar, c, t, num(0));
        closed(ar, c, t, Double::count(v.len()));
    }
    assert(corner@.len() == D);
}

proof fn lemma_best(means: Seq<Double>, minimize: bool, n: int)
    requires
        0 < n <= means.len(),
        forall|k: int| 0 <= k < n ==> !(#[trigger] means[k]).nan(),
    ensures
        0 <= best_of(means, minimize, n) < n,
        forall|k: int|
            0 <= k < n ==> if minimize {
                means[best_of(means, minimize, n)].at_most(#[trigger] means[k])
            } else {
                means[k].at_most(means[best_of(means, minimize, n)])
            },
    decreases n,
{
    if n > 1 {
        lemma_best(means, minimize, n - 1);
    }
}

/// Calibration of soft data: the mean of the soft data, their squared standard deviation,
/// and the correlation with the hard indicators, times both standard deviations, are the
/// means of the soft data, of their squared deviations, and of the products of the
/// deviations of both.
pub proof fn calibrations_are_those_of_the_pairs<F: Fn(Op, Double, Double) -> Double>(
    ar: Arithmetic<F>,
    c: Numbers,
    hard: Seq<Vec<Double>>,
    soft: Seq<Vec<Double>>,
    k: int,
    m: MarkovBayesCalibration,
    m1: Double,
    s1: Double,
)
    requires
        exact(ar, c),
        hard.len() == soft.len(),
        counts(ar, c, hard.len()),
        all_numbers(c, column(hard, k)),
        all_numbers(c, column(soft, k)),
        calibrated(ar, hard, soft, k, Ok(m)),
        c(m1),
        c(s1),
        s1 != num(0),
        c(m.sigma_soft),
        m.sigma_soft != num(0),
        ar.times(m1, Double::count(hard.len())) == ar.accumulated(column(hard, k)),
        forall|t: (Double, Double, Double)|
            crate::collocated::stats_outcome(ar, column(hard, k), column(soft, k), Ok(t))
                ==> #[trigger] t.1 == s1,
        forall|a: Double| c(a) && c(ar.sqrt(a)) ==> ar.times(#[trigger] ar.sqrt(a), ar.sqrt(a)) == a,
        crate::collocated::is_correlation(
            ar.over(
                ar.over(
                    ar.accumulated(
                        joint_deviations(ar, column(hard, k), m1, column(soft, k), m.mean_soft),
                    ),
                    Double::count(hard.len()),
                ),
                ar.times(s1, m.sigma_soft),
            ),
        ),
    ensures
        ar.times(m.mean_soft, Double::count(hard.len())) == ar.accumulated(column(soft, k)),
        ar.times(ar.times(s1, s1), Double::count(hard.len())) == ar.accumulated(
            joint_deviations(ar, column(hard, k), m1, column(hard, k), m1),
        ),
        ar.times(ar.times(m.sigma_soft, m.sigma_soft), Double::count(hard.len()))
            == ar.accumulated(
            joint_deviations(ar, column(soft, k), m.mean_soft, column(soft, k), m.mean_soft),
        ),
        ar.times(ar.times(m.rho, ar.times(s1, m.sigma_soft)), Double::count(hard.len()))
            == ar.accumulated(
            joint_deviations(ar, column(hard, k), m1, column(soft, k), m.mean_soft),
        ),
{
    let (x, y) = (column(hard, k), column(soft, k));
    let s = choose|s: Result<(Double, Double, Double), GeostatError>| #[trigger]
        crate::collocated::stats_outcome(ar, x, y, s) && match s {
            Err(e) => Ok::<MarkovBayesCalibration, GeostatError>(m) == Err::<
                MarkovBayesCalibration,
                GeostatError,
            >(e),
            Ok(s) => Ok::<MarkovBayesCalibration, GeostatError>(m) == Ok::<
                MarkovBayesCalibration,
                GeostatError,
            >(
                MarkovBayesCalibration {
                    rho: s.0,
                    sigma_soft: s.2,
                    mean_soft: ar.average_of(y),
                },
            ),
        };
    let t = s->Ok_0;
    assert(t.1 == s1);
    lemma_average_closed(ar, c, y);
    statistics_are_those_of_the_sample(ar, c, x, y, m1, m.mean_soft, m.rho, s1, m.sigma_soft);
}

} // verus!

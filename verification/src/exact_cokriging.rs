//! Co-kriging over an arithmetic without rounding: it honors the primary data and
//! averages over a block.

use vstd::prelude::*;

use crate::arith::{num, Arithmetic, Op};
use crate::cokriging::{CoSetting, Member};
use crate::double::{Double, ONE};
use crate::exact::{
    all_numbers, applied, closed, elimination_finds_the_solution, exact, lemma_dot_start,
    lemma_total_start, span_sum, square_of, Numbers,
};
use crate::exact_kriging::{
    across_lists, averaged, counts, lemma_average_added, lemma_average_of_equals,
    lemma_differences, lemma_dot_is_span, lemma_solution_averaged, lemma_span_averaged,
    lemma_unit_dot, lemma_unit_picks, unit_at, values_of_estimates,
};
use crate::kriging::{block_gap, KrigingEstimate};
use crate::linalg::solution;

verus! {

/// What co-kriging from these conditioning points computes with is numbers.
pub open spec fn cokriges_in<'a, const D: usize, F: Fn(Op, Double, Double) -> Double, G: Fn([Double; D]) -> Double>(
    co: &CoSetting<'a, D, G>,
    ar: Arithmetic<F>,
    c: Numbers,
    ms: Seq<Member>,
) -> bool {
    &&& exact(ar, c)
    &&& ms.len() + co.datasets@.len() <= usize::MAX
    &&& co.datasets@.len() > 0
    &&& square_of(c, co.lhs(ar, ms))
    &&& all_numbers(c, co.values_at(ms))
    &&& c(co.lmc.cosill(ar, 0, 0))
}

/// The cross-covariance of two variables is that of the exchanged variables for the
/// reversed separation.
pub open spec fn exchanges<'a, const D: usize, F: Fn(Op, Double, Double) -> Double, G: Fn([Double; D]) -> Double>(
    co: &CoSetting<'a, D, G>,
    ar: Arithmetic<F>,
) -> bool {
    forall|u: int, p: Seq<Double>, q: Seq<Double>|
        #![trigger co.lmc.cross(ar, u, 0, ar.separation(p, q))]
        p.len() == D && q.len() == D ==> co.lmc.cross(ar, u, 0, ar.separation(p, q))
            == co.lmc.cross(ar, 0, u, ar.separation(q, p))
}

/// Co-kriging is exact at the primary data: at a primary data point among the
/// conditioning points, without a ridge, it gives the value of that point, with no
/// variance.
pub proof fn cokriging_is_exact_at_the_data<'a, const D: usize, F: Fn(Op, Double, Double) -> Double, G: Fn([Double; D]) -> Double>(
    co: &CoSetting<'a, D, G>,
    ar: Arithmetic<F>,
    c: Numbers,
    ms: Seq<Member>,
    j: int,
    target: [Double; D],
    e: KrigingEstimate,
)
    requires
        cokriges_in(co, ar, c, ms),
        !co.config.ridge.is_positive(),
        exchanges(co, ar),
        0 <= j < ms.len(),
        ms[j].0 == 0,
        target@ == co.place(ms[j]),
        all_numbers(c, target@),
        co.cokriged(ar, target, None, false, ms, Ok(e)),
    ensures
        e.value == co.value_at(ms[j]),
        e.variance == num(0),
{
    let n = ms.len() as int;
    let dim = ms.len() + co.datasets@.len();
    let m = co.lhs(ar, ms);
    let b = co.rhs(ar, ms, target@, None);
    let x = unit_at(dim, j);
    let top = co.lmc.cosill(ar, 0, 0);
    let w = choose|w: Seq<Double>| #[trigger]
        solution(ar, m, b, w) && e == co.weighted(ar, ms, w, b, None);
    closed(ar, c, num(0), num(ONE));
    let zero = ar.separation(target@, target@);
    assert forall|d: int| 0 <= d < zero.len() implies (#[trigger] zero[d]).eq_value(num(0)) by {
        assert(c(target@[d]));
        lemma_differences(ar, c, target@[d]);
    }
    assert(crate::lmc::at_rest(zero));
    lemma_differences(ar, c, top);
    assert(co.lmc.cross(ar, 0, 0, zero) == top);
    assert forall|r: int| 0 <= r < dim implies b[r] == applied(ar, m, x)[r] && c(b[r]) by {
        assert(m[r].len() == m.len() && all_numbers(c, m[r]));
        lemma_unit_picks(ar, c, m[r], dim, j, dim as int);
        assert(m[r][j] == co.cell(ar, ms, r, j));
        assert(c(m[r][j]));
        if r < n {
            let p = co.place(ms[r]);
            assert(b[r] == co.lmc.cross(ar, ms[r].0 as int, 0, ar.separation(p, target@)));
        }
    }
    assert(b =~= applied(ar, m, x));
    assert(all_numbers(c, x));
    elimination_finds_the_solution(ar, c, m, b, x, w);
    let vals = co.values_at(ms);
    assert(c(vals[j]));
    lemma_unit_dot(ar, c, num(0), vals, dim, j, n);
    closed(ar, c, vals[j], num(0));
    assert(all_numbers(c, b));
    lemma_unit_dot(ar, c, num(0), b, dim, j, dim as int);
    lemma_dot_start(ar, c, x, b, dim as int);
    assert(c(b[j]));
    closed(ar, c, b[j], num(0));
}

/// The right-hand sides at the points of a block.
pub open spec fn cosides_at<'a, const D: usize, F: Fn(Op, Double, Double) -> Double, G: Fn([Double; D]) -> Double>(
    co: &CoSetting<'a, D, G>,
    ar: Arithmetic<F>,
    ms: Seq<Member>,
    targets: Seq<[Double; D]>,
) -> Seq<Seq<Double>> {
    Seq::new(targets.len(), |u: int| co.rhs(ar, ms, targets[u]@, None))
}

/// The right-hand side of a block is the average of those of its points.
proof fn lemma_block_rhs<'a, const D: usize, F: Fn(Op, Double, Double) -> Double, G: Fn([Double; D]) -> Double>(
    co: &CoSetting<'a, D, G>,
    ar: Arithmetic<F>,
    c: Numbers,
    ms: Seq<Member>,
    center: [Double; D],
    offsets: Seq<[Double; D]>,
    targets: Seq<[Double; D]>,
)
    requires
        cokriges_in(co, ar, c, ms),
        counts(ar, c, offsets.len()),
        targets.len() == offsets.len(),
        forall|u: int, d: int|
            0 <= u < offsets.len() && 0 <= d < D ==> (#[trigger] targets[u]@[d]) == ar.plus(
                center@[d],
                offsets[u]@[d],
            ),
        forall|u: int|
            0 <= u < offsets.len() ==> all_numbers(
                c,
                #[trigger] co.rhs(ar, ms, targets[u]@, None),
            ),
    ensures
        co.rhs(ar, ms, center@, Some(offsets)) == averaged(
            ar,
            cosides_at(co, ar, ms, targets),
            ms.len() + co.datasets@.len(),
        ),
{
    let dim = ms.len() + co.datasets@.len();
    let count = offsets.len();
    let sides = cosides_at(co, ar, ms, targets);
    let b = co.rhs(ar, ms, center@, Some(offsets));
    closed(ar, c, num(0), num(ONE));
    lemma_average_of_equals(ar, c, num(ONE), count);
    lemma_average_of_equals(ar, c, num(0), count);
    assert forall|r: int| 0 <= r < dim implies b[r] == averaged(ar, sides, dim)[r] by {
        let col = across_lists(sides, r);
        if r < ms.len() {
            let p = co.place(ms[r]);
            let to = co.to_offsets(ar, ms[r], center@, offsets);
            assert forall|u: int| 0 <= u < to.len() implies to[u] == col[u] && c(to[u]) by {
                let side = co.rhs(ar, ms, targets[u]@, None);
                assert(all_numbers(c, side) && c(side[r]));
                assert(block_gap(ar, p, center@, offsets[u]@) =~= ar.separation(p, targets[u]@))
                    by {
                    assert forall|d: int| 0 <= d < D implies block_gap(
                        ar,
                        p,
                        center@,
                        offsets[u]@,
                    )[d] == ar.separation(p, targets[u]@)[d] by {
                        assert(targets[u]@[d] == ar.plus(center@[d], offsets[u]@[d]));
                    }
                }
            }
            assert(to =~= col);
            assert(all_numbers(c, to));
            assert(count > 0) by {
                if count == 0 {
                    assert(Double::count(0) == num(0));
                }
            }
            lemma_total_start(ar, c, to);
        } else if r == ms.len() {
            assert(col =~= Seq::new(count, |u: int| num(ONE)));
        } else {
            assert(col =~= Seq::new(count, |u: int| num(0)));
        }
    }
    assert(b =~= averaged(ar, sides, dim));
}

/// Block co-kriging averages point co-kriging: the estimate of a block is the mean of the
/// estimates at its discretization points, from the same conditioning points.
pub proof fn block_cokriging_is_the_mean_of_its_points<'a, const D: usize, F: Fn(Op, Double, Double) -> Double, G: Fn([Double; D]) -> Double>(
    co: &CoSetting<'a, D, G>,
    ar: Arithmetic<F>,
    c: Numbers,
    ms: Seq<Member>,
    center: [Double; D],
    offsets: Seq<[Double; D]>,
    targets: Seq<[Double; D]>,
    es: Seq<KrigingEstimate>,
    e: KrigingEstimate,
)
    requires
        cokriges_in(co, ar, c, ms),
        counts(ar, c, offsets.len()),
        targets.len() == offsets.len(),
        forall|u: int, d: int|
            0 <= u < offsets.len() && 0 <= d < D ==> (#[trigger] targets[u]@[d]) == ar.plus(
                center@[d],
                offsets[u]@[d],
            ),
        forall|u: int|
            0 <= u < offsets.len() ==> all_numbers(
                c,
                #[trigger] co.rhs(ar, ms, targets[u]@, None),
            ),
        es.len() == offsets.len(),
        forall|u: int|
            0 <= u < offsets.len() ==> co.cokriged(
                ar,
                targets[u],
                None,
                false,
                ms,
                Ok(#[trigger] es[u]),
            ),
        co.cokriged(ar, center, Some(offsets), false, ms, Ok(e)),
    ensures
        e.value == ar.average_of(values_of_estimates(es)),
{
    let dim = ms.len() + co.datasets@.len();
    let n = ms.len() as int;
    let m = co.lhs(ar, ms);
    let b = co.rhs(ar, ms, center@, Some(offsets));
    let sides = cosides_at(co, ar, ms, targets);
    let count = offsets.len();
    let v = co.values_at(ms);
    lemma_block_rhs(co, ar, c, ms, center, offsets, targets);
    let w = choose|w: Seq<Double>| #[trigger]
        solution(ar, m, b, w) && e == co.weighted(ar, ms, w, b, Some(offsets));
    let ws = Seq::new(
        count,
        |u: int|
            choose|w: Seq<Double>| #[trigger]
                solution(ar, m, sides[u], w) && es[u] == co.weighted(ar, ms, w, sides[u], None),
    );
    assert forall|u: int| 0 <= u < count implies (#[trigger] sides[u]).len() == dim && all_numbers(
        c,
        sides[u],
    ) && solution(ar, m, sides[u], ws[u]) && es[u] == co.weighted(ar, ms, ws[u], sides[u], None) by {
        assert(co.cokriged(ar, targets[u], None, false, ms, Ok(es[u])));
        assert(sides[u] == co.rhs(ar, ms, targets[u]@, None));
    }
    let x = averaged(ar, ws, dim);
    lemma_solution_averaged(ar, c, m, sides, ws, w);
    closed(ar, c, num(0), num(0));
    lemma_dot_is_span(ar, c, num(0), x, v, n);
    lemma_span_averaged(ar, c, v, ws, dim, n);
    let sums = Seq::new(ws.len(), |u: int| span_sum(ar, v, ws[u], 0, n));
    let starts = Seq::new(count, |u: int| num(0));
    let values = values_of_estimates(es);
    lemma_average_of_equals(ar, c, num(0), count);
    assert forall|u: int| 0 <= u < count implies #[trigger] values[u] == ar.plus(
        starts[u],
        sums[u],
    ) by {
        assert(sides[u].len() == dim);
        assert(ws[u].len() == dim);
        lemma_dot_is_span(ar, c, num(0), ws[u], v, n);
    }
    lemma_average_added(ar, c, starts, sums, values);
}

} // verus!

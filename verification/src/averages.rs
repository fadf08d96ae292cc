//! Averages over an arithmetic without rounding: what interpolators weigh, where the centers
//! of a grid stand, and what a model of coregionalization sums.

use vstd::prelude::*;

use crate::algebra::{halves, lemma_minus_undoes};
use crate::arith::{num, Arithmetic, Op, HALF};
use crate::data::PointSet;
use crate::double::{Double, ONE};
use crate::exact::{
    all_numbers, closed, distributes, exact, lemma_span_closed, plus_shuffles, span_sum, Numbers,
};
use crate::exact_kriging::{counts, lemma_average_closed, lemma_dot_is_span, lemma_total_closed};
use crate::grid::Grid2D;
use crate::interpolation::{
    idw_predicts, idw_validated, idw_weights, is_idw, knn_predicts, most_of, nearest_data, no_hit,
    values_of, CvResult, COINCIDENT,
};
use crate::kdtree::{limit, spread};
use crate::lmc::{shape_at, Lmc};
use crate::search::nearest_points_agree;

verus! {

/// Distance of two points.
pub open spec fn apart<F: Fn(Op, Double, Double) -> Double>(
    ar: Arithmetic<F>,
    p: Seq<Double>,
    q: Seq<Double>,
) -> Double {
    ar.sqrt(
        ar.total_of(
            Seq::new(p.len(), |d: int| ar.times(ar.minus(p[d], q[d]), ar.minus(p[d], q[d]))),
        ),
    )
}

/// Inverse-distance weighting weighs by inverse powers of the distance: where the target
/// is at none of the nearest data, the prediction times the sum of the weights is the
/// weighted values, and every weight times its distance to the power is one. At a datum
/// the prediction is its value.
pub proof fn weights_are_inverse_powers_of_distances<const D: usize, F: Fn(Op, Double, Double) -> Double>(
    ar: Arithmetic<F>,
    c: Numbers,
    data: &PointSet<D>,
    power: Double,
    most: Option<usize>,
    reach: Option<Double>,
    target: [Double; D],
    r: Double,
)
    requires
        exact(ar, c),
        all_numbers(c, data.attributes()),
        data.attributes().len() == data.places().len(),
        forall|x: Double|
            #![trigger ar.pow(x, power.neg())]
            !x.le(num(COINCIDENT)) ==> c(ar.pow(x, power.neg())) && ar.times(
                ar.pow(x, power.neg()),
                ar.pow(x, power),
            ) == num(ONE),
        forall|nb: Seq<usize>| #[trigger]
            nearest_data(ar, data, most_of(most, data.places().len()), reach, target, nb)
                ==> nb.len() > 0 && ar.accumulated(
                Seq::new(
                    nb.len(),
                    |i: int|
                        ar.pow(apart(ar, target@, data.places()[nb[i] as int]@), power.neg()),
                ),
            ) != num(0),
        idw_predicts(ar, data, power, most, reach, target, r),
    ensures
        exists|nb: Seq<usize>, us: Seq<Double>|
            #![trigger nearest_data(ar, data, most_of(most, data.places().len()), reach, target, nb), all_numbers(c, us)]
            {
                &&& nearest_data(ar, data, most_of(most, data.places().len()), reach, target, nb)
                &&& all_numbers(c, us)
                &&& us.len() == nb.len()
                &&& (forall|i: int|
                    0 <= i < nb.len() ==> !apart(
                        ar,
                        target@,
                        data.places()[#[trigger] nb[i] as int]@,
                    ).le(num(COINCIDENT))) ==> {
                    &&& forall|i: int|
                        0 <= i < nb.len() ==> ar.times(
                            #[trigger] us[i],
                            ar.pow(apart(ar, target@, data.places()[nb[i] as int]@), power),
                        ) == num(ONE)
                    &&& ar.times(r, ar.accumulated(us)) == ar.plus(
                        num(0),
                        span_sum(ar, values_of(data, nb), us, 0, nb.len() as int),
                    )
                }
                &&& (exists|i: int|
                    0 <= i < nb.len() && apart(
                        ar,
                        target@,
                        data.places()[#[trigger] nb[i] as int]@,
                    ).le(num(COINCIDENT))) ==> exists|i: int|
                    0 <= i < nb.len() && apart(
                        ar,
                        target@,
                        data.places()[#[trigger] nb[i] as int]@,
                    ).le(num(COINCIDENT)) && r == data.attributes()[nb[i] as int]
            },
{
    let k = most_of(most, data.places().len());
    let nb = choose|nb: Seq<usize>| #[trigger]
        nearest_data(ar, data, k, reach, target, nb) && is_idw(
            ar,
            crate::interpolation::distances(ar, data, target, nb),
            values_of(data, nb),
            power,
            r,
        );
    let ds = crate::interpolation::distances(ar, data, target, nb);
    let vs = values_of(data, nb);
    let n = nb.len() as int;
    closed(ar, c, num(0), num(ONE));
    assert forall|i: int| 0 <= i < n implies #[trigger] ds[i] == apart(
        ar,
        target@,
        data.places()[nb[i] as int]@,
    ) by {
        let q = data.places()[nb[i] as int]@;
        assert(crate::interpolation::squares_between(ar, target@, q, D as nat) =~= Seq::new(
            target@.len(),
            |d: int| ar.times(ar.minus(target@[d], q[d]), ar.minus(target@[d], q[d])),
        ));
    }
    let listed = Seq::new(
        nb.len(),
        |i: int| ar.pow(apart(ar, target@, data.places()[nb[i] as int]@), power.neg()),
    );
    let us = if no_hit(ds) {
        listed
    } else {
        Seq::new(nb.len(), |i: int| num(0))
    };
    assert(n > 0 && ar.accumulated(listed) != num(0));
    if no_hit(ds) {
        let ws = idw_weights(ar, ds, power);
        assert forall|i: int| 0 <= i < n implies #[trigger] ws[i] == us[i] && c(us[i]) && ar.times(
            us[i],
            ar.pow(apart(ar, target@, data.places()[nb[i] as int]@), power),
        ) == num(ONE) by {
            assert(!ds[i].le(num(COINCIDENT)));
        }
        assert(ws =~= us);
        assert forall|i: int| 0 <= i < n implies c(#[trigger] us[i]) by {
            assert(ws[i] == us[i]);
        }
        assert forall|i: int| 0 <= i < n implies ar.times(
            #[trigger] us[i],
            ar.pow(apart(ar, target@, data.places()[nb[i] as int]@), power),
        ) == num(ONE) by {
            assert(ws[i] == us[i]);
        }
        assert forall|i: int| 0 <= i < n implies c(#[trigger] vs[i]) by {
            crate::search::lemma_found_fit(
                nb,
                k,
                spread(ar, data.places(), target),
                data.places().len(),
                limit(ar.square_radius(reach)),
            );
            assert(crate::search::eligible(
                spread(ar, data.places(), target),
                data.places().len(),
                limit(ar.square_radius(reach)),
                nb[i],
            ));
        }
        lemma_dot_is_span(ar, c, num(0), us, vs, n);
        lemma_total_closed(ar, c, us);
        lemma_span_closed(ar, c, vs, us, 0, n);
        let top = ar.plus(num(0), span_sum(ar, vs, us, 0, n));
        closed(ar, c, num(0), span_sum(ar, vs, us, 0, n));
        closed(ar, c, top, ar.accumulated(us));
        if exists|i: int|
            0 <= i < nb.len() && apart(ar, target@, data.places()[#[trigger] nb[i] as int]@).le(
                num(COINCIDENT),
            ) {
            let i = choose|i: int|
                0 <= i < nb.len() && apart(ar, target@, data.places()[#[trigger] nb[i] as int]@).le(
                    num(COINCIDENT),
                );
            assert(!ds[i].le(num(COINCIDENT)));
        }
    } else {
        let j = choose|j: int| 0 <= j < ds.len() && (#[trigger] ds[j]).le(num(COINCIDENT));
        assert(apart(ar, target@, data.places()[nb[j] as int]@).le(num(COINCIDENT)));
        let i = choose|i: int| #[trigger] crate::interpolation::first_hit(ds, i) && r == vs[i];
        assert(ds[i].le(num(COINCIDENT)));
        assert(apart(ar, target@, data.places()[nb[i] as int]@).le(num(COINCIDENT)));
    }
    assert(all_numbers(c, us));
}

/// An average of nearest values, times their number, is their sum.
pub proof fn nearest_values_are_averaged<const D: usize, F: Fn(Op, Double, Double) -> Double>(
    ar: Arithmetic<F>,
    c: Numbers,
    data: &PointSet<D>,
    k: usize,
    reach: Option<Double>,
    target: [Double; D],
    r: Double,
)
    requires
        exact(ar, c),
        forall|nb: Seq<usize>| #[trigger]
            nearest_data(ar, data, k as nat, reach, target, nb) ==> counts(ar, c, nb.len())
                && all_numbers(c, values_of(data, nb)),
        knn_predicts(ar, data, k, reach, target, r),
    ensures
        exists|nb: Seq<usize>| #[trigger]
            nearest_data(ar, data, k as nat, reach, target, nb) && nb.len() <= k && ar.times(
                r,
                Double::count(nb.len()),
            ) == ar.accumulated(
                Seq::new(nb.len(), |i: int| data.attributes()[nb[i] as int]),
            ),
{
    let nb = choose|nb: Seq<usize>| #[trigger]
        nearest_data(ar, data, k as nat, reach, target, nb) && r == (if nb.len() == 0 {
            num(crate::double::NOT_A_NUMBER)
        } else {
            ar.average_of(values_of(data, nb))
        });
    let vs = values_of(data, nb);
    assert(counts(ar, c, vs.len()));
    lemma_average_closed(ar, c, vs);
    assert(vs =~= Seq::new(nb.len(), |i: int| data.attributes()[nb[i] as int]));
}

/// A point that is left out takes no part in its own prediction: where data differ in the
/// value of point `i` alone, and no two of the others are equally far from it, inverse
/// distance weighting predicts the same there.
pub proof fn left_out_values_take_no_part<const D: usize, F: Fn(Op, Double, Double) -> Double>(
    ar: Arithmetic<F>,
    a: &PointSet<D>,
    b: &PointSet<D>,
    power: Double,
    most: Option<usize>,
    reach: Option<Double>,
    i: int,
    ra: CvResult,
    rb: CvResult,
)
    requires
        ar.ieee(),
        a.places() == b.places(),
        a.attributes().len() == a.places().len(),
        b.attributes().len() == a.places().len(),
        0 <= i < a.places().len(),
        forall|j: int|
            0 <= j < a.places().len() && j != i ==> #[trigger] a.attributes()[j]
                == b.attributes()[j],
        forall|j: usize, k: usize|
            j < a.places().len() - 1 && k < a.places().len() - 1 && j != k ==> #[trigger] spread(
                ar,
                a.places().remove(i),
                a.places()[i],
            )(j) != #[trigger] spread(ar, a.places().remove(i), a.places()[i])(k),
        idw_validated(ar, a, power, most, reach, Ok(ra)),
        idw_validated(ar, b, power, most, reach, Ok(rb)),
    ensures
        ra.predicted@[i] == rb.predicted@[i],
        ra.observed@[i] == a.attributes()[i],
        rb.observed@[i] == b.attributes()[i],
{
    let target = a.places()[i];
    let (x, y) = (ra.predicted@[i], rb.predicted@[i]);
    assert(crate::interpolation::idw_left_out(ar, a, power, most, reach, i, ra.predicted@[i]));
    assert(crate::interpolation::idw_left_out(ar, b, power, most, reach, i, rb.predicted@[i]));
    let p = choose|p: PointSet<D>| #[trigger]
        crate::interpolation::without(a, i, &p) && idw_predicts(
            ar,
            &p,
            power,
            most,
            reach,
            target,
            x,
        );
    let q = choose|q: PointSet<D>| #[trigger]
        crate::interpolation::without(b, i, &q) && idw_predicts(
            ar,
            &q,
            power,
            most,
            reach,
            target,
            y,
        );
    let places = a.places().remove(i);
    assert(p.places() == places && q.places() == places);
    assert(p.attributes() =~= q.attributes()) by {
        assert forall|j: int| 0 <= j < p.attributes().len() implies p.attributes()[j]
            == q.attributes()[j] by {
            let k = if j < i {
                j
            } else {
                j + 1
            };
            assert(a.attributes()[k] == b.attributes()[k]);
        }
    }
    let k = most_of(most, places.len());
    let na = choose|nb: Seq<usize>| #[trigger]
        nearest_data(ar, &p, k, reach, target, nb) && is_idw(
            ar,
            crate::interpolation::distances(ar, &p, target, nb),
            values_of(&p, nb),
            power,
            x,
        );
    let nb = choose|nb: Seq<usize>| #[trigger]
        nearest_data(ar, &q, k, reach, target, nb) && is_idw(
            ar,
            crate::interpolation::distances(ar, &q, target, nb),
            values_of(&q, nb),
            power,
            y,
        );
    let d = spread(ar, places, target);
    assert forall|j: usize| j < places.len() implies (#[trigger] d(j)).nan() || !d(
        j,
    ).negative() by {
        ar.lemma_gap2_sign(places[j as int]@, target@, D as int);
    }
    nearest_points_agree(na, nb, k, d, places.len(), limit(ar.square_radius(reach)));
    assert(crate::interpolation::distances(ar, &p, target, na)
        =~= crate::interpolation::distances(ar, &q, target, nb));
    assert(values_of(&p, na) =~= values_of(&q, nb));
    crate::interpolation::idw_is_unique(
        ar,
        crate::interpolation::distances(ar, &p, target, na),
        values_of(&p, na),
        power,
        x,
        y,
    );
}

/// The centers of a grid stand in the middle of equal cells: twice the distance of a center
/// from the edge is as many cell widths as twice its column and one.
pub proof fn centers_stand_in_the_middle<F: Fn(Op, Double, Double) -> Double>(
    grid: Grid2D,
    ar: Arithmetic<F>,
    c: Numbers,
    centers: Seq<[Double; 2]>,
    ix: int,
    iy: int,
)
    requires
        exact(ar, c),
        halves(ar, c),
        grid.are_centers(ar, centers),
        0 <= ix < grid.nx,
        0 <= iy < grid.ny,
        c(grid.x0) && c(grid.y0) && c(grid.dx) && c(grid.dy),
        c(Double::count(ix as nat)) && c(Double::count(iy as nat)),
    ensures
        centers.len() == grid.nx * grid.ny,
        0 <= iy * grid.nx + ix < centers.len(),
        ({
            let p = centers[iy * grid.nx + ix]@;
            let (x, y) = (ar.minus(p[0], grid.x0), ar.minus(p[1], grid.y0));
            let (i, j) = (Double::count(ix as nat), Double::count(iy as nat));
            &&& ar.plus(x, x) == ar.times(ar.plus(ar.plus(i, i), num(ONE)), grid.dx)
            &&& ar.plus(y, y) == ar.times(ar.plus(ar.plus(j, j), num(ONE)), grid.dy)
        }),
{
    let n = grid.nx as int;
    assert(0 <= iy * n + ix < n * grid.ny) by (nonlinear_arith)
        requires
            0 <= ix < n,
            0 <= iy < grid.ny,
    ;
    vstd::arithmetic::div_mod::lemma_fundamental_div_mod_converse(iy * n + ix, n, iy, ix);
    let k = iy * n + ix;
    assert(centers.len() == grid.nx * grid.ny);
    assert(centers[k]@[0] == crate::grid::cell_center(ar, grid.x0, grid.dx, ix as nat));
    assert(centers[k]@[1] == crate::grid::cell_center(ar, grid.y0, grid.dy, iy as nat));
    lemma_middle(ar, c, grid.x0, grid.dx, Double::count(ix as nat));
    lemma_middle(ar, c, grid.y0, grid.dy, Double::count(iy as nat));
}

/// A center stands as far beyond its cell's edge as half a step.
pub(crate) proof fn lemma_middle<F: Fn(Op, Double, Double) -> Double>(
    ar: Arithmetic<F>,
    c: Numbers,
    lo: Double,
    step: Double,
    i: Double,
)
    requires
        exact(ar, c),
        halves(ar, c),
        c(lo),
        c(step),
        c(i),
    ensures
        ({
            let x = ar.minus(ar.plus(lo, ar.times(ar.plus(i, num(HALF)), step)), lo);
            ar.plus(x, x) == ar.times(ar.plus(ar.plus(i, i), num(ONE)), step)
        }),
{
    let half = num(HALF);
    closed(ar, c, i, half);
    let m = ar.plus(i, half);
    closed(ar, c, m, step);
    let t = ar.times(m, step);
    lemma_minus_undoes(ar, c, t, lo);
    closed(ar, c, lo, t);
    closed(ar, c, m, m);
    distributes(ar, c, step, m, m);
    closed(ar, c, step, m);
    closed(ar, c, step, ar.plus(m, m));
    plus_shuffles(ar, c, i, half, i, half);
}

/// The parts of an extent make it up: a cell width times the number of cells is the extent.
pub proof fn cells_fill_the_box<F: Fn(Op, Double, Double) -> Double>(
    ar: Arithmetic<F>,
    c: Numbers,
    lo: Double,
    hi: Double,
    n: nat,
)
    requires
        exact(ar, c),
        counts(ar, c, n),
        c(lo),
        c(hi),
    ensures
        ar.plus(lo, ar.times(crate::grid::nth_part(ar, lo, hi, n), Double::count(n))) == hi,
{
    closed(ar, c, hi, lo);
    closed(ar, c, ar.minus(hi, lo), Double::count(n));
    lemma_minus_undoes(ar, c, hi, lo);
}

/// Cross-covariances of a model of coregionalization: they and the cross-semivariance,
/// which is the nugget and the partial sills, each times its shape at the separation, make
/// up the nugget and the partial sills of the two variables. Where points do not differ,
/// the semivariance is zero.
pub proof fn coregionalization_sums_structures<const D: usize, F: Fn(Op, Double, Double) -> Double, G: Fn([Double; D]) -> Double>(
    lmc: &Lmc<D, G>,
    ar: Arithmetic<F>,
    c: Numbers,
    u: int,
    v: int,
    h: Seq<Double>,
)
    requires
        exact(ar, c),
        0 < lmc.structures@.len(),
        c(lmc.nugget@[u]@[v]),
        forall|s: int|
            0 <= s < lmc.structures@.len() ==> c((#[trigger] lmc.structures@[s]).sills@[u]@[v])
                && c(shape_at::<D, G>(lmc.structures@[s].shape, h)),
    ensures
        ({
            let n = lmc.structures@.len();
            let sills = Seq::new(n, |s: int| lmc.structures@[s].sills@[u]@[v]);
            let shapes = Seq::new(n, |s: int| shape_at::<D, G>(lmc.structures@[s].shape, h));
            let gamma = if forall|d: int| 0 <= d < h.len() ==> (#[trigger] h[d]).eq_value(num(0)) {
                num(0)
            } else {
                ar.plus(lmc.nugget@[u]@[v], span_sum(ar, shapes, sills, 0, n as int))
            };
            ar.plus(lmc.cross(ar, u, v, h), gamma) == ar.plus(
                lmc.nugget@[u]@[v],
                ar.accumulated(sills),
            )
        }),
{
    let n = lmc.structures@.len();
    let nugget = lmc.nugget@[u]@[v];
    let sills = Seq::new(n, |s: int| lmc.structures@[s].sills@[u]@[v]);
    let shapes = Seq::new(n, |s: int| shape_at::<D, G>(lmc.structures@[s].shape, h));
    assert(sills =~= crate::lmc::cosills(lmc.structures@, u, v));
    assert(shapes =~= lmc.shapes(h));
    assert(all_numbers(c, sills)) by {
        assert forall|s: int| 0 <= s < n implies c(#[trigger] sills[s]) by {
            assert(c(lmc.structures@[s].sills@[u]@[v]));
        }
    }
    assert(all_numbers(c, shapes)) by {
        assert forall|s: int| 0 <= s < n implies c(#[trigger] shapes[s]) by {
            assert(c(lmc.structures@[s].sills@[u]@[v]));
        }
    }
    closed(ar, c, num(0), num(0));
    lemma_dot_is_span(ar, c, nugget, sills, shapes, n as int);
    lemma_span_closed(ar, c, shapes, sills, 0, n as int);
    closed(ar, c, nugget, span_sum(ar, shapes, sills, 0, n as int));
    crate::exact::lemma_total_start(ar, c, sills);
    lemma_total_closed(ar, c, sills);
    closed(ar, c, nugget, ar.accumulated(sills));
    let total = ar.plus(nugget, ar.accumulated(sills));
    closed(ar, c, total, ar.plus(nugget, span_sum(ar, shapes, sills, 0, n as int)));
    closed(ar, c, total, num(0));
}

} // verus!

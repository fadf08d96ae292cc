//! What is selected and averaged: conditioning points by sector, corrected distributions,
//! global proportions, and the points that stand for a block.

use vstd::prelude::*;

use crate::algebra::{halves, lemma_minus_undoes, lemma_two_halves};
use crate::arith::{num, Arithmetic, Op, HALF};
use crate::bucket_grid::BucketGrid;
use crate::ccdf::{
    averages_keep_order, corrected, count_at_most, downward, drawn, in_unit, share_of, shares_of,
    unit_clamped, upward, weight_at_most, weight_list, Ladder,
};
use crate::data::PointSet;
use crate::double::{Double, ONE};
use crate::error::GeostatError;
use crate::exact::{
    all_numbers, closed, distributes, exact, lemma_total_start, plus_shuffles, times_associates,
    Numbers,
};
use crate::exact_kriging::lemma_total_closed;
use crate::ik::{CcdfEstimate, IkConfig};
use crate::kdtree::{limit, spread};
use crate::kriging::{are_block_offsets, block_step, in_sector, sector, taken_by_sector, Setting};
use crate::local_moments::ends_tail;
use crate::search::{eligible, k_nearest_of, nearer, within_reach};
use crate::sis::{script_of, sis_outcome, sis_step, Script, SisConfig};
use crate::stage::Stage;
use crate::walk::{merged, visited_places, Quotas, Scene};

verus! {

/// Two places lie on the same side of a target along every axis.
pub open spec fn same_side<const D: usize>(
    p: [Double; D],
    q: [Double; D],
    target: [Double; D],
) -> bool {
    forall|d: int|
        0 <= d < D ==> (#[trigger] target@[d]).at_most(p@[d]) == target@[d].at_most(q@[d])
}

/// The points of a list that lie on the same side of a target as a place.
pub open spec fn beside<const D: usize>(
    places: Seq<[Double; D]>,
    target: [Double; D],
    points: Seq<usize>,
    p: [Double; D],
) -> Seq<usize> {
    points.filter(|j: usize| same_side(places[j as int], p, target))
}

proof fn lemma_beside<const D: usize>(
    places: Seq<[Double; D]>,
    target: [Double; D],
    points: Seq<usize>,
    p: [Double; D],
)
    ensures
        in_sector(places, target, points, sector(p, target)) == beside(
            places,
            target,
            points,
            p,
        ).len(),
    decreases points.len(),
{
    reveal(Seq::filter);
    if points.len() > 0 {
        lemma_beside(places, target, points.drop_last(), p);
        let q = places[points.last() as int];
        lemma_same_side(q, p, target);
    }
}

proof fn lemma_same_side<const D: usize>(p: [Double; D], q: [Double; D], target: [Double; D])
    ensures
        same_side(p, q, target) <==> sector(p, target) == sector(q, target),
{
    let (a, b) = (sector(p, target), sector(q, target));
    if same_side(p, q, target) {
        assert forall|d: int| 0 <= d < D implies a[d] == b[d] by {
            assert(target@[d].at_most(p@[d]) == target@[d].at_most(q@[d]));
        }
        assert(a =~= b);
    }
    if a == b {
        assert forall|d: int| 0 <= d < D implies (#[trigger] target@[d]).at_most(p@[d])
            == target@[d].at_most(q@[d]) by {
            assert(a[d] == b[d]);
        }
    }
}

proof fn lemma_taken<const D: usize>(
    places: Seq<[Double; D]>,
    target: [Double; D],
    list: Seq<usize>,
    per: nat,
    d: spec_fn(usize) -> Double,
)
    requires
        forall|a: int, b: int|
            0 <= a < b < list.len() ==> nearer(d, #[trigger] list[a], #[trigger] list[b]),
    ensures
        ({
            let t = taken_by_sector(places, target, list, per);
            &&& forall|a: int| 0 <= a < t.len() ==> list.contains(#[trigger] t[a])
            &&& forall|a: int, b: int|
                0 <= a < b < t.len() ==> nearer(d, #[trigger] t[a], #[trigger] t[b])
            &&& forall|s: Seq<bool>| #[trigger] in_sector(places, target, t, s) <= per
            &&& forall|m: int|
                0 <= m < list.len() && !t.contains(#[trigger] list[m]) ==> {
                    let s = sector(places[list[m] as int], target);
                    &&& in_sector(places, target, t, s) == per
                    &&& forall|a: int|
                        0 <= a < t.len() && sector(places[(#[trigger] t[a]) as int], target) == s
                            ==> nearer(d, t[a], list[m])
                }
        }),
    decreases list.len(),
{
    if list.len() > 0 {
        let rest = list.drop_last();
        let x = list.last();
        lemma_taken(places, target, rest, per, d);
        let before = taken_by_sector(places, target, rest, per);
        let t = taken_by_sector(places, target, list, per);
        let sx = sector(places[x as int], target);
        assert forall|a: int| 0 <= a < before.len() implies list.contains(#[trigger] before[a])
            && nearer(d, before[a], x) by {
            assert(rest.contains(before[a]));
            let m = choose|m: int| 0 <= m < rest.len() && rest[m] == before[a];
            assert(list[m] == before[a]);
            assert(nearer(d, list[m], list[list.len() - 1]));
        }
        assert(list[list.len() - 1] == x);
        assert(in_sector(places, target, before, sx) <= per);
        if in_sector(places, target, before, sx) < per {
            assert(t == before.push(x));
            assert(t.drop_last() =~= before);
            assert forall|s: Seq<bool>| #[trigger] in_sector(places, target, t, s) <= per by {
                assert(in_sector(places, target, before, s) <= per);
            }
            assert(t[before.len() as int] == x);
            assert forall|m: int| 0 <= m < list.len() && !t.contains(#[trigger] list[m]) implies {
                let s = sector(places[list[m] as int], target);
                &&& in_sector(places, target, t, s) == per
                &&& forall|a: int|
                    0 <= a < t.len() && sector(places[(#[trigger] t[a]) as int], target) == s
                        ==> nearer(d, t[a], list[m])
            } by {
                let s = sector(places[list[m] as int], target);
                assert(m < rest.len());
                assert(rest[m] == list[m]);
                assert(!before.contains(rest[m])) by {
                    if before.contains(rest[m]) {
                        let a = choose|a: int| 0 <= a < before.len() && before[a] == rest[m];
                        assert(t[a] == list[m]);
                    }
                }
                assert(in_sector(places, target, before, s) == per);
                assert(s != sx);
                assert forall|a: int|
                    0 <= a < t.len() && sector(places[(#[trigger] t[a]) as int], target)
                        == s implies nearer(d, t[a], list[m]) by {
                    assert(a < before.len());
                    assert(before[a] == t[a]);
                }
            }
        } else {
            assert(t == before);
            assert forall|m: int| 0 <= m < list.len() && !t.contains(#[trigger] list[m]) implies {
                let s = sector(places[list[m] as int], target);
                &&& in_sector(places, target, t, s) == per
                &&& forall|a: int|
                    0 <= a < t.len() && sector(places[(#[trigger] t[a]) as int], target) == s
                        ==> nearer(d, t[a], list[m])
            } by {
                if m < rest.len() {
                    assert(rest[m] == list[m]);
                }
            }
        }
    }
}

/// A search by sector takes the nearest of every sector: points within the radius, each
/// once, no more than so many on one side of the target; and where a point within the
/// radius is left out, its side has as many as it may, none of them farther.
pub proof fn sectors_take_their_nearest<'a, const D: usize, F: Fn(Op, Double, Double) -> Double, G: Fn([Double; D]) -> Double>(
    s: &Setting<'a, D, G>,
    ar: Arithmetic<F>,
    target: [Double; D],
    nb: Seq<usize>,
    per: usize,
)
    requires
        ar.ieee(),
        !s.config.global(),
        s.config.max_per_octant == Some(per),
        s.config.max_neighbors is None,
        s.data.places().len() <= usize::MAX,
        s.is_neighborhood(ar, target, nb),
    ensures
        ({
            let places = s.data.places();
            let d = spread(ar, places, target);
            let reach = limit(ar.square_radius(s.config.search_radius));
            &&& forall|a: int|
                0 <= a < nb.len() ==> (#[trigger] nb[a]) < places.len() && d(nb[a]).at_most(reach)
            &&& forall|a: int, b: int|
                0 <= a < b < nb.len() ==> #[trigger] nb[a] != #[trigger] nb[b]
            &&& forall|i: usize|
                i < places.len() ==> beside(
                    places,
                    target,
                    nb,
                    #[trigger] places[i as int],
                ).len() <= per
            &&& forall|i: usize|
                i < places.len() && (#[trigger] d(i)).at_most(reach) && !nb.contains(i) ==> {
                    &&& beside(places, target, nb, places[i as int]).len() == per
                    &&& forall|a: int|
                        0 <= a < nb.len() && same_side(
                            places[(#[trigger] nb[a]) as int],
                            places[i as int],
                            target,
                        ) ==> d(nb[a]).at_most(d(i))
                }
        }),
{
    let places = s.data.places();
    let n = places.len();
    let d = spread(ar, places, target);
    let reach = limit(ar.square_radius(s.config.search_radius));
    let all = choose|all: Seq<usize>| #[trigger]
        k_nearest_of(all, n, d, n, reach) && nb == crate::kriging::at_most_first(
            taken_by_sector(places, target, all, per as nat),
            s.config.max_neighbors,
        );
    lemma_taken(places, target, all, per as nat, d);
    assert forall|a: int| 0 <= a < nb.len() implies (#[trigger] nb[a]) < n && d(nb[a]).at_most(
        reach,
    ) by {
        assert(all.contains(nb[a]));
        let m = choose|m: int| 0 <= m < all.len() && all[m] == nb[a];
        assert(eligible(d, n, reach, all[m]));
    }
    assert forall|a: int, b: int| 0 <= a < b < nb.len() implies #[trigger] nb[a]
        != #[trigger] nb[b] by {
        assert(nearer(d, nb[a], nb[b]));
    }
    assert forall|i: usize| i < n implies beside(
        places,
        target,
        nb,
        #[trigger] places[i as int],
    ).len() <= per by {
        lemma_beside(places, target, nb, places[i as int]);
    }
    assert forall|i: usize|
        i < n && (#[trigger] d(i)).at_most(reach) && !nb.contains(i) implies {
        &&& beside(places, target, nb, places[i as int]).len() == per
        &&& forall|a: int|
            0 <= a < nb.len() && same_side(
                places[(#[trigger] nb[a]) as int],
                places[i as int],
                target,
            ) ==> d(nb[a]).at_most(d(i))
    } by {
        assert(eligible(d, n, reach, i));
        lemma_all_listed(all, d, n, reach, i);
        let m = choose|m: int| 0 <= m < all.len() && all[m] == i;
        lemma_beside(places, target, nb, places[i as int]);
        assert forall|a: int|
            0 <= a < nb.len() && same_side(
                places[(#[trigger] nb[a]) as int],
                places[i as int],
                target,
            ) implies d(nb[a]).at_most(d(i)) by {
            lemma_same_side(places[nb[a] as int], places[i as int], target);
            assert(nearer(d, nb[a], all[m]));
            ar.lemma_gap2_sign(places[nb[a] as int]@, target@, D as int);
            ar.lemma_gap2_sign(places[i as int]@, target@, D as int);
            assert(!d(nb[a]).nan() && !d(i).nan());
            assert(!d(nb[a]).negative() && !d(i).negative());
        }
    }
}

/// A list of as many points as there are leaves none out.
proof fn lemma_all_listed(
    all: Seq<usize>,
    d: spec_fn(usize) -> Double,
    n: nat,
    reach: Double,
    i: usize,
)
    requires
        k_nearest_of(all, n, d, n, reach),
        eligible(d, n, reach, i),
    ensures
        all.contains(i),
{
    if !all.contains(i) {
        let more = all.push(i);
        assert(all.len() == n);
        assert forall|a: int, b: int| 0 <= a < more.len() && 0 <= b < more.len() && a != b implies more[a]
            != more[b] by {
            if a < all.len() && b < all.len() {
                if a < b {
                    assert(nearer(d, all[a], all[b]));
                } else {
                    assert(nearer(d, all[b], all[a]));
                }
            } else if a < all.len() {
                assert(all.contains(all[a]));
            } else {
                assert(all.contains(all[b]));
            }
        }
        let ints = Seq::new(more.len(), |a: int| more[a] as int);
        assert(ints.no_duplicates());
        ints.unique_seq_to_set();
        let bound = vstd::set_lib::set_int_range(0, n as int);
        vstd::set_lib::lemma_int_range(0, n as int);
        assert forall|x: int| ints.to_set().contains(x) implies bound.contains(x) by {
            let a = choose|a: int| 0 <= a < ints.len() && ints[a] == x;
            if a < all.len() {
                assert(eligible(d, n, reach, all[a]));
            }
        }
        vstd::set_lib::lemma_len_subset(ints.to_set(), bound);
    }
}

/// What remains of a probability between zero and one.
pub open spec fn kept_between(x: Double, y: Double) -> bool {
    &&& num(0).at_most(x) && x.at_most(num(ONE)) ==> y == x
    &&& x.below(num(0)) ==> y == num(0)
    &&& num(ONE).below(x) ==> y == num(ONE)
}

proof fn lemma_upward(raw: Seq<Double>, flat: Seq<Double>, k: int) -> (i: int)
    requires
        0 <= k < raw.len(),
        flat.len() == raw.len(),
        forall|j: int| 0 <= j < raw.len() ==> #[trigger] flat[j] == unit_clamped(raw[j]),
        forall|j: int| 0 <= j < raw.len() ==> !(#[trigger] flat[j]).nan(),
    ensures
        0 <= i <= k,
        upward(raw, k) == flat[i],
        forall|j: int| 0 <= j <= k ==> (#[trigger] flat[j]).at_most(flat[i]),
    decreases k,
{
    if k == 0 {
        assert(flat[0] == unit_clamped(raw[0]));
        0
    } else {
        let i = lemma_upward(raw, flat, k - 1);
        assert(flat[k] == unit_clamped(raw[k]));
        if flat[k].below(flat[i]) {
            i
        } else {
            k
        }
    }
}

proof fn lemma_downward(raw: Seq<Double>, flat: Seq<Double>, k: int) -> (i: int)
    requires
        0 <= k < raw.len(),
        flat.len() == raw.len(),
        forall|j: int| 0 <= j < raw.len() ==> #[trigger] flat[j] == unit_clamped(raw[j]),
        forall|j: int| 0 <= j < raw.len() ==> !(#[trigger] flat[j]).nan(),
    ensures
        k <= i < raw.len(),
        downward(raw, k) == flat[i],
        forall|j: int| k <= j < raw.len() ==> flat[i].at_most(#[trigger] flat[j]),
    decreases raw.len() - k,
{
    assert(flat[k] == unit_clamped(raw[k]));
    if k >= raw.len() - 1 {
        k
    } else {
        let i = lemma_downward(raw, flat, k + 1);
        if flat[i].below(flat[k]) {
            i
        } else {
            k
        }
    }
}

/// Corrected probabilities stand halfway between the greatest up to them and the least from
/// them on, of the probabilities kept between zero and one.
pub proof fn corrections_average_extremes<F: Fn(Op, Double, Double) -> Double>(
    ar: Arithmetic<F>,
    c: Numbers,
    raw: Seq<Double>,
    k: int,
)
    requires
        exact(ar, c),
        halves(ar, c),
        all_numbers(c, raw),
        forall|j: int| 0 <= j < raw.len() ==> !(#[trigger] raw[j]).nan(),
        0 <= k < raw.len(),
    ensures
        corrected(ar, raw).len() == raw.len(),
        exists|flat: Seq<Double>, up: int, down: int|
            #![trigger flat[up], flat[down]]
            {
                &&& flat.len() == raw.len()
                &&& forall|j: int|
                    0 <= j < raw.len() ==> kept_between(raw[j], #[trigger] flat[j])
                &&& 0 <= up <= k <= down < raw.len()
                &&& forall|j: int| 0 <= j <= k ==> (#[trigger] flat[j]).at_most(flat[up])
                &&& forall|j: int|
                    k <= j < raw.len() ==> flat[down].at_most(#[trigger] flat[j])
                &&& ar.plus(corrected(ar, raw)[k], corrected(ar, raw)[k]) == ar.plus(
                    flat[up],
                    flat[down],
                )
            },
{
    let flat = Seq::new(raw.len(), |j: int| unit_clamped(raw[j]));
    closed(ar, c, num(0), num(ONE));
    assert forall|j: int| 0 <= j < raw.len() implies !(#[trigger] flat[j]).nan() && c(flat[j])
        && kept_between(raw[j], flat[j]) by {
        assert(c(raw[j]) && !raw[j].nan());
    }
    let up = lemma_upward(raw, flat, k);
    let down = lemma_downward(raw, flat, k);
    assert(c(flat[up]) && c(flat[down]));
    closed(ar, c, flat[up], flat[down]);
    lemma_two_halves(ar, c, ar.plus(flat[up], flat[down]));
}

/// Weights of the values at or below a cutoff, zero for the others.
pub open spec fn weights_below(
    values: Seq<Double>,
    weights: Seq<Double>,
    cutoff: Double,
) -> Seq<Double> {
    Seq::new(
        values.len(),
        |i: int|
            if values[i].at_most(cutoff) {
                weights[i]
            } else {
                num(0)
            },
    )
}

/// A global proportion is the part of the data at or below a cutoff: times the number of
/// values it is how many they are, and times the sum of the weights what they weigh.
pub proof fn proportions_are_shares<F: Fn(Op, Double, Double) -> Double>(
    ar: Arithmetic<F>,
    c: Numbers,
    values: Seq<Double>,
    weights: Option<Seq<Double>>,
    cutoff: Double,
)
    requires
        exact(ar, c),
        c(Double::count(values.len())),
        Double::count(values.len()) != num(0),
        forall|k: nat| k <= values.len() ==> c(#[trigger] Double::count(k)),
        weights matches Some(w) ==> {
            &&& w.len() == values.len()
            &&& w.len() > 0
            &&& all_numbers(c, w)
            &&& ar.accumulated(w) != num(0)
            &&& exists|i: int| 0 <= i < values.len() && (#[trigger] values[i]).at_most(cutoff)
        },
    ensures
        ({
            let p = share_of(ar, values, weights, cutoff);
            match weights {
                None => ar.times(p, Double::count(values.len())) == Double::count(
                    values.filter(|v: Double| v.at_most(cutoff)).len(),
                ),
                Some(w) => ar.times(p, ar.accumulated(w)) == ar.accumulated(
                    weights_below(values, w, cutoff),
                ),
            }
        }),
{
    match weights {
        None => {
            lemma_counted(values, cutoff);
            let k = count_at_most(values, cutoff);
            assert(k <= values.len()) by {
                lemma_at_most_all(values, cutoff);
            }
            assert(c(Double::count(k)));
            closed(ar, c, Double::count(k), Double::count(values.len()));
        },
        Some(w) => {
            lemma_total_start(ar, c, w);
            lemma_total_closed(ar, c, w);
            let below = weights_below(values, w, cutoff);
            closed(ar, c, num(0), num(0));
            assert forall|i: int| 0 <= i < below.len() implies c(#[trigger] below[i]) by {
                assert(c(w[i]));
            }
            lemma_total_closed(ar, c, below);
            lemma_weighed(ar, c, values, w, cutoff);
            let t = weight_at_most(ar, values, w, cutoff);
            assert(t == ar.accumulated(below));
            closed(ar, c, ar.accumulated(below), ar.accumulated(w));
        },
    }
}

proof fn lemma_weighed<F: Fn(Op, Double, Double) -> Double>(
    ar: Arithmetic<F>,
    c: Numbers,
    values: Seq<Double>,
    w: Seq<Double>,
    cutoff: Double,
)
    requires
        exact(ar, c),
        all_numbers(c, w),
        w.len() == values.len(),
    ensures
        ({
            let t = weight_at_most(ar, values, w, cutoff);
            let sum = ar.accumulated(weights_below(values, w, cutoff));
            &&& c(sum)
            &&& if exists|i: int|
                0 <= i < values.len() && (#[trigger] values[i]).at_most(cutoff) {
                t == sum
            } else {
                t == num(crate::arith::MINUS_ZERO) && sum == num(0)
            }
        }),
    decreases values.len(),
{
    closed(ar, c, num(0), num(0));
    if values.len() > 0 {
        let n = values.len() - 1;
        let (v0, w0) = (values.drop_last(), w.drop_last());
        assert forall|i: int| 0 <= i < w0.len() implies c(#[trigger] w0[i]) by {
            assert(c(w[i]));
        }
        lemma_weighed(ar, c, v0, w0, cutoff);
        let below = weights_below(values, w, cutoff);
        assert(below.drop_last() =~= weights_below(v0, w0, cutoff));
        assert(c(w[n]));
        let s0 = ar.accumulated(weights_below(v0, w0, cutoff));
        closed(ar, c, s0, w[n]);
        closed(ar, c, w[n], num(0));
        assert(crate::exact::start_law(ar, c, w[n]));
        if values[n].at_most(cutoff) {
            assert(values.last() == values[n]);
        } else if exists|i: int| 0 <= i < v0.len() && (#[trigger] v0[i]).at_most(cutoff) {
            let i = choose|i: int| 0 <= i < v0.len() && (#[trigger] v0[i]).at_most(cutoff);
            assert(values[i].at_most(cutoff));
        } else {
            assert forall|i: int| 0 <= i < values.len() implies !(#[trigger] values[i]).at_most(
                cutoff,
            ) by {
                if i < n {
                    assert(!v0[i].at_most(cutoff));
                }
            }
        }
    }
}

proof fn lemma_at_most_all(values: Seq<Double>, cutoff: Double)
    ensures
        count_at_most(values, cutoff) <= values.len(),
    decreases values.len(),
{
    if values.len() > 0 {
        lemma_at_most_all(values.drop_last(), cutoff);
    }
}

proof fn lemma_counted(values: Seq<Double>, cutoff: Double)
    ensures
        count_at_most(values, cutoff) == values.filter(|v: Double| v.at_most(cutoff)).len(),
    decreases values.len(),
{
    reveal(Seq::filter);
    if values.len() > 0 {
        lemma_counted(values.drop_last(), cutoff);
    }
}

/// The points that stand for a block are the centers of its equal parts: twice the offset of
/// a point along a side, times the number of parts, and as many sides make up as many sides
/// as twice its place and one. The first axis comes first.
pub proof fn block_points_are_centered<F: Fn(Op, Double, Double) -> Double>(
    ar: Arithmetic<F>,
    c: Numbers,
    size: Seq<Double>,
    n: Seq<usize>,
    offsets: Seq<[Double; 2]>,
    ix: int,
    iy: int,
)
    requires
        exact(ar, c),
        halves(ar, c),
        are_block_offsets(ar, size, n, offsets),
        0 <= ix < n[0],
        0 <= iy < n[1],
        c(size[0]) && c(size[1]),
        c(Double::count(n[0] as nat)) && c(Double::count(n[1] as nat)),
        Double::count(n[0] as nat) != num(0) && Double::count(n[1] as nat) != num(0),
        c(Double::count(ix as nat)) && c(Double::count(iy as nat)),
    ensures
        offsets.len() == n[0] * n[1],
        0 <= iy * n[0] + ix < offsets.len(),
        ({
            let p = offsets[iy * n[0] + ix]@;
            let x = ar.times(p[0], Double::count(n[0] as nat));
            let y = ar.times(p[1], Double::count(n[1] as nat));
            let (i, j) = (Double::count(ix as nat), Double::count(iy as nat));
            &&& ar.plus(ar.plus(x, x), ar.times(size[0], Double::count(n[0] as nat))) == ar.times(
                size[0],
                ar.plus(ar.plus(i, i), num(ONE)),
            )
            &&& ar.plus(ar.plus(y, y), ar.times(size[1], Double::count(n[1] as nat))) == ar.times(
                size[1],
                ar.plus(ar.plus(j, j), num(ONE)),
            )
        }),
{
    let w = n[0] as int;
    assert(0 <= iy * w + ix < w * n[1]) by (nonlinear_arith)
        requires
            0 <= ix < w,
            0 <= iy < n[1],
    ;
    vstd::arithmetic::div_mod::lemma_fundamental_div_mod_converse(iy * w + ix, w, iy, ix);
    let p = offsets[iy * w + ix]@;
    assert(p[0] == block_step(ar, size[0], n[0] as nat, ix as nat));
    assert(p[1] == block_step(ar, size[1], n[1] as nat, iy as nat));
    lemma_block_step(ar, c, size[0], n[0] as nat, ix as nat);
    lemma_block_step(ar, c, size[1], n[1] as nat, iy as nat);
}

proof fn lemma_block_step<F: Fn(Op, Double, Double) -> Double>(
    ar: Arithmetic<F>,
    c: Numbers,
    size: Double,
    n: nat,
    i: nat,
)
    requires
        exact(ar, c),
        halves(ar, c),
        c(size),
        c(Double::count(n)),
        c(Double::count(i)),
        Double::count(n) != num(0),
    ensures
        ({
            let s = ar.times(block_step(ar, size, n, i), Double::count(n));
            let k = Double::count(i);
            ar.plus(ar.plus(s, s), ar.times(size, Double::count(n))) == ar.times(
                size,
                ar.plus(ar.plus(k, k), num(ONE)),
            )
        }),
{
    let half = num(HALF);
    let (q, k) = (Double::count(n), Double::count(i));
    closed(ar, c, k, half);
    let m = ar.plus(k, half);
    closed(ar, c, m, q);
    let f = ar.over(m, q);
    lemma_minus_undoes(ar, c, f, half);
    let g = ar.minus(f, half);
    closed(ar, c, g, size);
    closed(ar, c, g, q);
    let step = ar.times(g, size);
    closed(ar, c, step, q);
    let s = ar.times(step, q);
    // s == size (g q), and g q + half q == m.
    times_associates(ar, c, size, g, q);
    closed(ar, c, size, ar.times(g, q));
    closed(ar, c, half, q);
    closed(ar, c, g, half);
    closed(ar, c, f, q);
    distributes(ar, c, q, g, half);
    closed(ar, c, q, g);
    closed(ar, c, q, half);
    closed(ar, c, q, f);
    let gq = ar.times(g, q);
    let hq = ar.times(half, q);
    closed(ar, c, gq, hq);
    assert(ar.plus(gq, hq) == m);
    assert(s == ar.times(size, gq));
    // Twice: 2 s + size q == size (2 m).
    lemma_two_halves(ar, c, q);
    plus_shuffles(ar, c, gq, hq, gq, hq);
    closed(ar, c, gq, gq);
    closed(ar, c, hq, hq);
    distributes(ar, c, size, gq, gq);
    distributes(ar, c, size, ar.plus(gq, gq), q);
    plus_shuffles(ar, c, k, half, k, half);
}

/// How far a known point is from a target: data come first, then the nodes with values.
pub open spec fn far<const D: usize, F: Fn(Op, Double, Double) -> Double>(
    ar: Arithmetic<F>,
    data: Seq<[Double; D]>,
    seen: Seq<[Double; D]>,
    target: [Double; D],
    j: int,
) -> Double {
    if j < data.len() {
        ar.distance2(data[j], target)
    } else {
        ar.distance2(seen[j - data.len()], target)
    }
}

/// `x` stands in the list at place `i` or behind it.
spec fn listed_from(m: Seq<usize>, i: int, x: int) -> bool {
    exists|a: int| i <= a < m.len() && #[trigger] m[a] == x
}

spec fn ascend(d: spec_fn(usize) -> Double, list: Seq<usize>) -> bool {
    forall|a: int, b: int|
        0 <= a < b < list.len() ==> d(#[trigger] list[a]).at_most(d(#[trigger] list[b]))
}

proof fn lemma_merged(
    nd: Seq<usize>,
    nn: Seq<usize>,
    n_data: nat,
    all: nat,
    dd: spec_fn(usize) -> Double,
    dn: spec_fn(usize) -> Double,
    d: spec_fn(usize) -> Double,
)
    requires
        all <= usize::MAX,
        forall|a: int|
            0 <= a < nd.len() ==> (#[trigger] nd[a]) < n_data && d(nd[a]) == dd(nd[a]) && !dd(
                nd[a],
            ).nan(),
        forall|a: int|
            0 <= a < nn.len() ==> n_data + (#[trigger] nn[a]) < all && d(
                (n_data + nn[a]) as usize,
            ) == dn(nn[a]) && !dn(nn[a]).nan(),
        ascend(dd, nd),
        ascend(dn, nn),
        nd.no_duplicates(),
        nn.no_duplicates(),
    ensures
        ({
            let m = merged(nd, nn, n_data, dd, dn);
            &&& m.len() == nd.len() + nn.len()
            &&& ascend(d, m)
            &&& m.no_duplicates()
            &&& forall|a: int|
                0 <= a < m.len() ==> nd.contains(#[trigger] m[a]) || (m[a] >= n_data
                    && nn.contains((m[a] - n_data) as usize))
            &&& forall|i: int|
                0 <= i < nd.len() ==> listed_from(m, i, #[trigger] nd[i] as int)
            &&& forall|i: int|
                0 <= i < nn.len() ==> listed_from(m, i, n_data + #[trigger] nn[i])
        }),
    decreases nd.len() + nn.len(),
{
    let m = merged(nd, nn, n_data, dd, dn);
    if nd.len() == 0 && nn.len() == 0 {
    } else if nd.len() > 0 && (nn.len() == 0 || dd(nd[0]).at_most(dn(nn[0]))) {
        let nr = nd.drop_first();
        assert forall|a: int| 0 <= a < nr.len() implies (#[trigger] nr[a]) < n_data && d(nr[a]) == dd(
            nr[a],
        ) && !dd(nr[a]).nan() by {
            assert(nr[a] == nd[a + 1]);
        }
        lemma_merged(nr, nn, n_data, all, dd, dn, d);
        let rest = merged(nr, nn, n_data, dd, dn);
        assert(m =~= seq![nd[0]] + rest);
        assert forall|a: int| 0 <= a < rest.len() implies d(nd[0]).at_most(d(#[trigger] rest[a]))
            && rest[a] != nd[0] && (nd.contains(rest[a]) || (rest[a] >= n_data && nn.contains(
            (rest[a] - n_data) as usize,
        ))) by {
            if nr.contains(rest[a]) {
                let i = choose|i: int| 0 <= i < nr.len() && nr[i] == rest[a];
                assert(nd[i + 1] == rest[a]);
            } else {
                let i = choose|i: int|
                    0 <= i < nn.len() && nn[i] == (rest[a] - n_data) as usize;
                assert(dn(nn[0]).at_most(dn(nn[i])));
            }
        }
        assert forall|a: int| 0 <= a < m.len() implies nd.contains(#[trigger] m[a]) || (m[a] >= n_data
            && nn.contains((m[a] - n_data) as usize)) by {
            if a == 0 {
                assert(nd.contains(nd[0]));
            } else {
                assert(m[a] == rest[a - 1]);
            }
        }
        assert forall|i: int| 0 <= i < nd.len() implies listed_from(
            m,
            i,
            #[trigger] nd[i] as int,
        ) by {
            if i == 0 {
                assert(m[0] == nd[0]);
            } else {
                assert(nr[i - 1] == nd[i]);
                assert(listed_from(rest, i - 1, nr[i - 1] as int));
                let a = choose|a: int| i - 1 <= a < rest.len() && rest[a] == nr[i - 1];
                assert(m[a + 1] == nd[i]);
            }
        }
        assert forall|i: int| 0 <= i < nn.len() implies listed_from(
            m,
            i,
            n_data + #[trigger] nn[i],
        ) by {
            assert(listed_from(rest, i, n_data + nn[i]));
            let a = choose|a: int| i <= a < rest.len() && rest[a] == n_data + nn[i];
            assert(m[a + 1] == rest[a]);
        }
        assert forall|a: int, b: int| 0 <= a < b < m.len() implies d(#[trigger] m[a]).at_most(
            d(#[trigger] m[b]),
        ) && m[a] != m[b] by {
            assert(m[b] == rest[b - 1]);
            if a > 0 {
                assert(m[a] == rest[a - 1]);
            }
        }
    } else {
        let nr = nn.drop_first();
        let first = (n_data + nn[0]) as usize;
        assert(n_data + nn[0] < all);
        assert forall|a: int| 0 <= a < nr.len() implies n_data + (#[trigger] nr[a]) < all && d(
            (n_data + nr[a]) as usize,
        ) == dn(nr[a]) && !dn(nr[a]).nan() by {
            assert(nr[a] == nn[a + 1]);
        }
        lemma_merged(nd, nr, n_data, all, dd, dn, d);
        let rest = merged(nd, nr, n_data, dd, dn);
        assert(m =~= seq![first] + rest);
        assert forall|a: int| 0 <= a < rest.len() implies d(first).at_most(d(#[trigger] rest[a]))
            && rest[a] != first && (nd.contains(rest[a]) || (rest[a] >= n_data && nn.contains(
            (rest[a] - n_data) as usize,
        ))) by {
            if nd.contains(rest[a]) {
                let i = choose|i: int| 0 <= i < nd.len() && nd[i] == rest[a];
                assert(dd(nd[0]).at_most(dd(nd[i])));
            } else {
                let i = choose|i: int|
                    0 <= i < nr.len() && nr[i] == (rest[a] - n_data) as usize;
                assert(nn[i + 1] == nr[i]);
                assert(dn(nn[0]).at_most(dn(nn[i + 1])));
            }
        }
        assert forall|a: int| 0 <= a < m.len() implies nd.contains(#[trigger] m[a]) || (m[a] >= n_data
            && nn.contains((m[a] - n_data) as usize)) by {
            if a == 0 {
                assert(nn.contains(nn[0]));
            } else {
                assert(m[a] == rest[a - 1]);
            }
        }
        assert forall|i: int| 0 <= i < nn.len() implies listed_from(
            m,
            i,
            n_data + #[trigger] nn[i],
        ) by {
            if i == 0 {
                assert(m[0] == first);
            } else {
                assert(nr[i - 1] == nn[i]);
                assert(listed_from(rest, i - 1, n_data + nr[i - 1]));
                let a = choose|a: int| i - 1 <= a < rest.len() && rest[a] == n_data + nr[i - 1];
                assert(m[a + 1] == rest[a]);
            }
        }
        assert forall|i: int| 0 <= i < nd.len() implies listed_from(
            m,
            i,
            #[trigger] nd[i] as int,
        ) by {
            assert(listed_from(rest, i, nd[i] as int));
            let a = choose|a: int| i <= a < rest.len() && rest[a] == nd[i];
            assert(m[a + 1] == rest[a]);
        }
        assert forall|a: int, b: int| 0 <= a < b < m.len() implies d(#[trigger] m[a]).at_most(
            d(#[trigger] m[b]),
        ) && m[a] != m[b] by {
            assert(m[b] == rest[b - 1]);
            if a > 0 {
                assert(m[a] == rest[a - 1]);
            }
        }
    }
}

proof fn lemma_listed<const D: usize, F: Fn(Op, Double, Double) -> Double>(
    ar: Arithmetic<F>,
    found: Seq<usize>,
    k: nat,
    pts: Seq<[Double; D]>,
    target: [Double; D],
    n: nat,
    reach: Double,
)
    requires
        ar.ieee(),
        within_reach(found, k, spread(ar, pts, target), n, reach),
    ensures
        ascend(spread(ar, pts, target), found),
        found.no_duplicates(),
        forall|a: int|
            0 <= a < found.len() ==> (#[trigger] found[a]) < n && spread(ar, pts, target)(
                found[a],
            ).at_most(reach),
{
    let d = spread(ar, pts, target);
    assert forall|a: int| 0 <= a < found.len() implies (#[trigger] found[a]) < n && d(
        found[a],
    ).at_most(reach) && !d(found[a]).negative() by {
        assert(eligible(d, n, reach, found[a]));
        ar.lemma_gap2_sign(pts[found[a] as int]@, target@, D as int);
    }
    assert forall|a: int, b: int| 0 <= a < b < found.len() implies d(#[trigger] found[a]).at_most(
        d(#[trigger] found[b]),
    ) && found[a] != found[b] by {
        assert(nearer(d, found[a], found[b]));
        assert(!d(found[a]).negative() && !d(found[b]).negative());
    }
}

/// A simulated node is conditioned on what is known nearby: data and the nodes that have
/// values, each once and within the radius, nearest first. Where nodes have no quota of
/// their own they compete with the data: no known point within the radius is left out
/// unless there are as many as there may be, none of them farther. Where they have one, no
/// datum is left out for a farther datum, and no node for a farther node.
pub proof fn neighbors_are_the_nearest_known<'a, const D: usize, F: Fn(Op, Double, Double) -> Double>(
    scene: &Scene<'a, D, F>,
    nb: Seq<usize>,
    node: usize,
    visited: Seq<usize>,
    grid: BucketGrid<D>,
    q: Quotas,
)
    requires
        scene.ar.ieee(),
        scene.data@.len() + visited.len() <= usize::MAX,
        scene.neighborhood(nb, node, visited, grid, q),
        scene.data_grid.bounds_hold(scene.data@, scene.nodes@[node as int], *scene.ar),
        grid.bounds_hold(
            visited_places(scene.nodes@, visited),
            scene.nodes@[node as int],
            *scene.ar,
        ),
        forall|p: [Double; D]| #[trigger]
            scene.ar.distance2(scene.nodes@[node as int], p) == scene.ar.distance2(
                p,
                scene.nodes@[node as int],
            ),
    ensures
        ({
            let n = scene.data@.len();
            let seen = visited_places(scene.nodes@, visited);
            let all = n + visited.len();
            let target = scene.nodes@[node as int];
            let reach = limit(scene.ar.square_radius(q.radius));
            let d = |j: usize| far(*scene.ar, scene.data@, seen, target, j as int);
            &&& forall|a: int|
                0 <= a < nb.len() ==> (#[trigger] nb[a]) < all && d(nb[a]).at_most(reach)
            &&& forall|a: int, b: int|
                0 <= a < b < nb.len() ==> #[trigger] nb[a] != #[trigger] nb[b] && d(nb[a]).at_most(
                    d(nb[b]),
                )
            &&& match q.max_node_neighbors {
                None => {
                    &&& nb.len() <= q.max_neighbors
                    &&& forall|j: usize, a: int|
                        j < all && d(j).at_most(reach) && !#[trigger] nb.contains(j) && 0 <= a
                            < nb.len() ==> d(#[trigger] nb[a]).at_most(d(j))
                    &&& forall|j: usize|
                        j < all && d(j).at_most(reach) && !#[trigger] nb.contains(j) ==> nb.len()
                            == q.max_neighbors
                },
                Some(k) => {
                    &&& nb.len() <= q.max_neighbors + k
                    &&& forall|j: usize, a: int|
                        j < all && d(j).at_most(reach) && !#[trigger] nb.contains(j) && 0 <= a
                            < nb.len() && (j < n <==> nb[a] < n) ==> d(#[trigger] nb[a]).at_most(
                            d(j),
                        )
                },
            }
        }),
{
    let ar = *scene.ar;
    let data = scene.data@;
    let n = data.len();
    let seen = visited_places(scene.nodes@, visited);
    let all = n + visited.len();
    let target = scene.nodes@[node as int];
    let reach = limit(ar.square_radius(q.radius));
    let d = |j: usize| far(ar, data, seen, target, j as int);
    let (nd, nn) = choose|nd: Seq<usize>, nn: Seq<usize>| #[trigger]
        scene.gathered(nb, nd, nn, node, visited, grid, q);
    let dd = crate::walk::away(ar, target, data);
    let dn = crate::walk::away(ar, target, seen);
    let sd = spread(ar, data, target);
    let sn = spread(ar, seen, target);
    lemma_listed(ar, nd, q.max_neighbors as nat, data, target, n, reach);
    lemma_listed(ar, nn, q.nodes(), seen, target, visited.len(), reach);
    assert forall|i: usize| #[trigger] dd(i) == sd(i) by {}
    assert forall|i: usize| #[trigger] dn(i) == sn(i) by {}
    assert forall|a: int| 0 <= a < nd.len() implies (#[trigger] nd[a]) < n && d(nd[a]) == dd(
        nd[a],
    ) && !dd(nd[a]).nan() by {
        assert(sd(nd[a]).at_most(reach));
    }
    assert forall|a: int| 0 <= a < nn.len() implies n + (#[trigger] nn[a]) < all && d(
        (n + nn[a]) as usize,
    ) == dn(nn[a]) && !dn(nn[a]).nan() by {
        assert(sn(nn[a]).at_most(reach));
    }
    assert(ascend(dd, nd)) by {
        assert forall|a: int, b: int| 0 <= a < b < nd.len() implies dd(#[trigger] nd[a]).at_most(
            dd(#[trigger] nd[b]),
        ) by {
            assert(sd(nd[a]).at_most(sd(nd[b])));
        }
    }
    assert(ascend(dn, nn)) by {
        assert forall|a: int, b: int| 0 <= a < b < nn.len() implies dn(#[trigger] nn[a]).at_most(
            dn(#[trigger] nn[b]),
        ) by {
            assert(sn(nn[a]).at_most(sn(nn[b])));
        }
    }
    lemma_merged(nd, nn, n, all, dd, dn, d);
    let m = merged(nd, nn, n, dd, dn);
    assert(nb == q.kept(m));
    assert forall|a: int| 0 <= a < m.len() implies (#[trigger] m[a]) < all && d(m[a]).at_most(
        reach,
    ) by {
        if nd.contains(m[a]) {
            let i = choose|i: int| 0 <= i < nd.len() && nd[i] == m[a];
            assert(sd(nd[i]).at_most(reach));
            assert(d(nd[i]) == dd(nd[i]));
        } else {
            let i = choose|i: int| 0 <= i < nn.len() && nn[i] == (m[a] - n) as usize;
            assert(sn(nn[i]).at_most(reach));
            assert(n + nn[i] < all);
        }
    }
    assert forall|a: int| 0 <= a < nb.len() implies #[trigger] nb[a] == m[a] by {}
    assert forall|a: int, b: int| 0 <= a < b < nb.len() implies #[trigger] nb[a] != #[trigger] nb[b]
        && d(nb[a]).at_most(d(nb[b])) by {
        assert(d(m[a]).at_most(d(m[b])));
    }
    // A point left out of the merged list.
    assert forall|j: usize, a: int|
        j < all && d(j).at_most(reach) && !#[trigger] m.contains(j) && 0 <= a < m.len() && (j < n
            <==> m[a] < n) implies d(#[trigger] m[a]).at_most(d(j)) by {
        lemma_left_out(nd, nn, n, all, m, sd, sn, q, visited.len(), reach, d, j);
        if j < n {
            assert(nd.contains(m[a]));
            let i = choose|i: int| 0 <= i < nd.len() && nd[i] == m[a];
            assert(sd(nd[i]).at_most(sd(j)));
            assert(d(nd[i]) == dd(nd[i]));
        } else {
            assert(!nd.contains(m[a]));
            let i = choose|i: int| 0 <= i < nn.len() && nn[i] == (m[a] - n) as usize;
            assert(sn(nn[i]).at_most(sn((j - n) as usize)));
            assert(n + nn[i] < all);
        }
    }
    if q.max_node_neighbors is None {
        assert forall|j: usize|
            j < all && d(j).at_most(reach) && !#[trigger] nb.contains(j) implies nb.len()
            == q.max_neighbors && forall|a: int|
            0 <= a < nb.len() ==> d(#[trigger] nb[a]).at_most(d(j)) by {
            if m.contains(j) {
                let p = choose|p: int| 0 <= p < m.len() && m[p] == j;
                if p < nb.len() {
                    assert(nb[p] == j);
                }
                assert forall|a: int| 0 <= a < nb.len() implies d(#[trigger] nb[a]).at_most(
                    d(j),
                ) by {
                    assert(d(m[a]).at_most(d(m[p])));
                }
            } else {
                lemma_left_out(nd, nn, n, all, m, sd, sn, q, visited.len(), reach, d, j);
                // The last of its kind stands at or behind the last place.
                let k = q.max_neighbors as int;
                assert forall|a: int| 0 <= a < nb.len() implies d(#[trigger] nb[a]).at_most(
                    d(j),
                ) by {
                    assert(k > 0);
                    if j < n {
                        let i = k - 1;
                        assert(listed_from(m, i, nd[i] as int));
                        let p = choose|p: int| i <= p < m.len() && m[p] == nd[i];
                        assert(sd(nd[i]).at_most(sd(j)));
                        assert(d(nd[i]) == dd(nd[i]));
                        if a < p {
                            assert(d(m[a]).at_most(d(m[p])));
                        }
                    } else {
                        let i = k - 1;
                        assert(listed_from(m, i, n + nn[i]));
                        let p = choose|p: int| i <= p < m.len() && m[p] == n + nn[i];
                        assert(sn(nn[i]).at_most(sn((j - n) as usize)));
                        assert(n + nn[i] < all);
                        if a < p {
                            assert(d(m[a]).at_most(d(m[p])));
                        }
                    }
                }
            }
        }
    } else {
        assert(nb == m);
    }
}

/// A known point that the merged list leaves out was not found, and there are as many of
/// its kind as were asked for.
proof fn lemma_left_out(
    nd: Seq<usize>,
    nn: Seq<usize>,
    n: nat,
    all: nat,
    m: Seq<usize>,
    sd: spec_fn(usize) -> Double,
    sn: spec_fn(usize) -> Double,
    q: Quotas,
    n_nodes: nat,
    reach: Double,
    d: spec_fn(usize) -> Double,
    j: usize,
)
    requires
        all == n + n_nodes,
        j < all,
        d(j).at_most(reach),
        !m.contains(j),
        j < n ==> d(j) == sd(j),
        j >= n ==> d(j) == sn((j - n) as usize),
        k_nearest_of(nd, q.max_neighbors as nat, sd, n, reach),
        k_nearest_of(nn, q.nodes(), sn, n_nodes, reach),
        forall|i: int|
            0 <= i < nd.len() ==> listed_from(m, i, #[trigger] nd[i] as int),
        forall|i: int|
            0 <= i < nn.len() ==> listed_from(m, i, n + #[trigger] nn[i]),
    ensures
        j < n ==> nd.len() == q.max_neighbors && forall|i: int|
            0 <= i < nd.len() ==> sd(#[trigger] nd[i]).at_most(sd(j)),
        j >= n ==> nn.len() == q.nodes() && forall|i: int|
            0 <= i < nn.len() ==> sn(#[trigger] nn[i]).at_most(sn((j - n) as usize)),
{
    if j < n {
        assert(eligible(sd, n, reach, j));
        assert(!nd.contains(j)) by {
            if nd.contains(j) {
                let i = choose|i: int| 0 <= i < nd.len() && nd[i] == j;
                assert(listed_from(m, i, nd[i] as int));
                let a = choose|a: int| i <= a < m.len() && m[a] == nd[i];
                assert(m[a] == j);
            }
        }
    } else {
        let t = (j - n) as usize;
        assert(eligible(sn, n_nodes, reach, t));
        assert(!nn.contains(t)) by {
            if nn.contains(t) {
                let i = choose|i: int| 0 <= i < nn.len() && nn[i] == t;
                assert(listed_from(m, i, n + nn[i]));
                let a = choose|a: int| i <= a < m.len() && m[a] == n + nn[i];
                assert(m[a] == j);
            }
        }
    }
}

/// Proportions of values at or below cutoffs, by number or by weight.
pub open spec fn stands_for_shares<F: Fn(Op, Double, Double) -> Double>(
    ar: Arithmetic<F>,
    values: Seq<Double>,
    weights: Option<Seq<Double>>,
    cutoffs: Seq<Double>,
    props: Seq<Double>,
) -> bool {
    &&& props.len() == cutoffs.len()
    &&& forall|k: int|
        0 <= k < cutoffs.len() ==> match weights {
            None => ar.times(#[trigger] props[k], Double::count(values.len())) == Double::count(
                values.filter(|v: Double| v.at_most(cutoffs[k])).len(),
            ),
            Some(w) => ar.times(props[k], ar.accumulated(w)) == ar.accumulated(
                weights_below(values, w, cutoffs[k]),
            ),
        }
}

/// Values, weights and counts are numbers, and some value is at or below every cutoff.
pub open spec fn shares_numeric<F: Fn(Op, Double, Double) -> Double>(
    ar: Arithmetic<F>,
    c: Numbers,
    values: Seq<Double>,
    weights: Option<Seq<Double>>,
    cutoffs: Seq<Double>,
) -> bool {
    &&& Double::count(values.len()) != num(0)
    &&& forall|k: nat| k <= values.len() ==> c(#[trigger] Double::count(k))
    &&& weights matches Some(w) ==> {
        &&& w.len() > 0
        &&& all_numbers(c, w)
        &&& ar.accumulated(w) != num(0)
        &&& forall|k: int|
            0 <= k < cutoffs.len() ==> exists|i: int|
                0 <= i < values.len() && (#[trigger] values[i]).at_most(#[trigger] cutoffs[k])
    }
}

proof fn lemma_ladder<F: Fn(Op, Double, Double) -> Double>(
    ar: Arithmetic<F>,
    c: Numbers,
    values: Seq<Double>,
    weights: Option<Seq<Double>>,
    cutoffs: Seq<Double>,
)
    requires
        exact(ar, c),
        shares_numeric(ar, c, values, weights, cutoffs),
        weights matches Some(w) ==> w.len() == values.len(),
    ensures
        stands_for_shares(ar, values, weights, cutoffs, shares_of(ar, values, weights, cutoffs)),
{
    let props = shares_of(ar, values, weights, cutoffs);
    assert(c(Double::count(values.len())));
    assert forall|k: int| 0 <= k < cutoffs.len() implies match weights {
        None => ar.times(#[trigger] props[k], Double::count(values.len())) == Double::count(
            values.filter(|v: Double| v.at_most(cutoffs[k])).len(),
        ),
        Some(w) => ar.times(props[k], ar.accumulated(w)) == ar.accumulated(
            weights_below(values, w, cutoffs[k]),
        ),
    } by {
        let cutoff = cutoffs[k];
        proportions_are_shares(ar, c, values, weights, cutoff);
    }
}

/// What a sequential indicator simulation is run with: the cutoffs, models, tails and
/// search limits of its configuration, and the given proportions.
pub open spec fn follows<const D: usize, G>(
    cfg: &SisConfig<D, G>,
    values: Seq<Double>,
    levels: Option<&Vec<u8>>,
    props: Seq<Double>,
    script: &Script<D, G>,
) -> bool {
    &&& script.cutoffs.values@ == cfg.cutoffs@
    &&& script.cutoffs.props@ == props
    &&& script.cutoffs.models@ == cfg.models@
    &&& script.cutoffs.ordinary == cfg.ordinary
    &&& script.classes.cutoffs@ == cfg.cutoffs@
    &&& script.classes.lower_tail == cfg.lower_tail
    &&& script.classes.upper_tail == cfg.upper_tail
    &&& ends_tail(cfg.tail_min, values, script.classes.tail_min, true)
    &&& ends_tail(cfg.tail_max, values, script.classes.tail_max, false)
    &&& script.quotas.max_neighbors == cfg.max_neighbors
    &&& script.quotas.max_node_neighbors == cfg.max_node_neighbors
    &&& script.quotas.radius == cfg.search_radius
    &&& script.levels == levels
}

/// Indicator simulations follow the weighted proportions: the proportion of every cutoff,
/// times the sum of the declustering weights, is what the data at or below it weigh, or as
/// many as they are without weights. All else is as configured.
pub proof fn indicator_simulations_use_the_weighted_proportions<const D: usize, F: Fn(Op, Double, Double) -> Double, G: Fn([Double; D]) -> Double>(
    ar: &Arithmetic<F>,
    c: Numbers,
    data: &PointSet<D>,
    nodes: Seq<[Double; D]>,
    levels: Option<&Vec<u8>>,
    cfg: &SisConfig<D, G>,
    v: Vec<Vec<Double>>,
)
    requires
        exact(*ar, c),
        data.attributes().len() > 0,
        match cfg.decluster_weights {
            Some(w) => shares_numeric(*ar, c, data.attributes(), Some(w@), cfg.cutoffs@),
            None => shares_numeric(*ar, c, data.attributes(), None, cfg.cutoffs@),
        },
        sis_outcome(ar, data, nodes, levels, cfg, Ok(v)),
    ensures
        exists|stage: Stage<D>, script: Script<D, G>, props: Seq<Double>|
            #![trigger stage.is_set(*ar, data.places(), nodes), follows(cfg, data.attributes(), levels, props, &script)]
            {
                &&& stage.is_set(*ar, data.places(), nodes)
                &&& follows(cfg, data.attributes(), levels, props, &script)
                &&& match cfg.decluster_weights {
                    Some(w) => stands_for_shares(
                        *ar,
                        data.attributes(),
                        Some(w@),
                        cfg.cutoffs@,
                        props,
                    ),
                    None => stands_for_shares(*ar, data.attributes(), None, cfg.cutoffs@, props),
                }
                &&& crate::sis::realized(
                    &stage,
                    ar,
                    &script,
                    data.attributes(),
                    cfg.n_realizations,
                    cfg.seed,
                    Ok(v),
                )
            },
{
    let values = data.attributes();
    let r = Ok::<Vec<Vec<Double>>, GeostatError>(v);
    let ladder = choose|ladder: Result<Ladder, GeostatError>| #[trigger]
        crate::sis::ladder_for(*ar, values, *cfg, ladder) && match ladder {
            Err(e) => r == Err::<Vec<Vec<Double>>, GeostatError>(e),
            Ok(l) => if nodes.len() == 0 {
                r matches Err(e) && crate::error::invalid(e, "no simulation nodes given"@)
            } else {
                exists|stage: Stage<D>| #[trigger]
                    stage.is_set(*ar, data.places(), nodes) && crate::sis::realized(
                        &stage,
                        ar,
                        &script_of(cfg, &l, levels),
                        values,
                        cfg.n_realizations,
                        cfg.seed,
                        r,
                    )
            },
        };
    let l = ladder->Ok_0;
    let script = script_of(cfg, &l, levels);
    let stage = choose|stage: Stage<D>| #[trigger]
        stage.is_set(*ar, data.places(), nodes) && crate::sis::realized(
            &stage,
            ar,
            &script,
            values,
            cfg.n_realizations,
            cfg.seed,
            r,
        );
    lemma_ladder(*ar, c, values, weight_list(cfg.decluster_weights), cfg.cutoffs@);
    assert(follows(cfg, values, levels, l.props@, &script));
}

/// Indicator kriging estimates from the proportions of the data: as many as are at or below
/// a cutoff.
pub proof fn indicator_estimates_use_the_proportions<const D: usize, F: Fn(Op, Double, Double) -> Double, G: Fn([Double; D]) -> Double>(
    cfg: &IkConfig<D, G>,
    ar: Arithmetic<F>,
    c: Numbers,
    data: &PointSet<D>,
    targets: Seq<[Double; D]>,
    v: Vec<CcdfEstimate>,
)
    requires
        exact(ar, c),
        data.attributes().len() > 0,
        shares_numeric(ar, c, data.attributes(), None, cfg.cutoffs@),
        cfg.outcome(ar, data, targets, Ok(v)),
    ensures
        v@.len() == targets.len(),
        exists|l: Ladder| #[trigger]
            stands_for_shares(ar, data.attributes(), None, cfg.cutoffs@, l.props@) && ends_tail(
                cfg.tail_min,
                data.attributes(),
                l.tail_min,
                true,
            ) && ends_tail(cfg.tail_max, data.attributes(), l.tail_max, false) && forall|t: int|
                0 <= t < v@.len() ==> cfg.kriged(ar, data, &l, targets[t], Ok(#[trigger] v@[t])),
{
    let values = data.attributes();
    let r = Ok::<Vec<CcdfEstimate>, GeostatError>(v);
    let ladder = choose|ladder: Result<Ladder, GeostatError>| #[trigger]
        cfg.ladder_for(ar, values, ladder) && match ladder {
            Err(e) => r == Err::<Vec<CcdfEstimate>, GeostatError>(e),
            Ok(l) => match r {
                Ok(v) => v@.len() == targets.len() && forall|t: int|
                    0 <= t < v@.len() ==> cfg.kriged(
                        ar,
                        data,
                        &l,
                        targets[t],
                        Ok(#[trigger] v@[t]),
                    ),
                Err(e) => exists|t: int|
                    0 <= t < targets.len() && cfg.kriged(
                        ar,
                        data,
                        &l,
                        #[trigger] targets[t],
                        Err(e),
                    ),
            },
        };
    let l = ladder->Ok_0;
    lemma_ladder(ar, c, values, None, cfg.cutoffs@);
    assert(stands_for_shares(ar, values, None, cfg.cutoffs@, l.props@));
}

/// A step of an indicator simulation draws from a distribution: the proportions where
/// nothing is near, otherwise one that does not fall and stays between zero and one.
pub proof fn indicator_steps_draw_from_distributions<const D: usize, F: Fn(Op, Double, Double) -> Double, G: Fn([Double; D]) -> Double>(
    stage: &Stage<D>,
    ar: &Arithmetic<F>,
    script: &Script<D, G>,
    node: usize,
    near: Seq<usize>,
    values: Seq<Double>,
    u: Double,
    z: Double,
)
    requires
        averages_keep_order(*ar),
        forall|raw: Seq<Double>, k: int|
            script.cutoffs.ccdf_outcome(
                *ar,
                stage.all@,
                near,
                values,
                stage.nodes@[node as int]@,
                Ok(raw),
            ) && 0 <= k < raw.len() ==> !(#[trigger] raw[k]).nan(),
        sis_step(stage, ar, script, node, near, values, u, Ok(z)),
    ensures
        exists|ccdf: Seq<Double>| #[trigger]
            drawn(*ar, ccdf, script.classes, u, z) && if near.len() == 0 {
                ccdf == script.cutoffs.props@
            } else {
                &&& forall|k: int| 0 <= k < ccdf.len() ==> in_unit(#[trigger] ccdf[k])
                &&& forall|j: int, k: int|
                    0 <= j < k < ccdf.len() ==> (#[trigger] ccdf[j]).at_most(#[trigger] ccdf[k])
            },
{
    let target = stage.nodes@[node as int]@;
    let r = choose|ccdf: Result<Seq<Double>, GeostatError>| #[trigger]
        script.cutoffs.local_outcome(*ar, stage.all@, near, values, target, ccdf) && match ccdf {
            Err(e) => Ok::<Double, GeostatError>(z) == Err::<Double, GeostatError>(e),
            Ok(c) => drawn(*ar, c, script.classes, u, z),
        };
    let ccdf = r->Ok_0;
    assert(drawn(*ar, ccdf, script.classes, u, z));
    if near.len() > 0 {
        let raw = choose|raw: Result<Seq<Double>, GeostatError>| #[trigger]
            script.cutoffs.ccdf_outcome(*ar, stage.all@, near, values, target, raw) && match raw {
                Err(e) => r == Err::<Seq<Double>, GeostatError>(e),
                Ok(v) => r == Ok::<Seq<Double>, GeostatError>(corrected(*ar, v)),
            };
        let list = raw->Ok_0;
        assert(raw == Ok::<Seq<Double>, GeostatError>(list));
        crate::ccdf::corrections_are_monotone_and_bounded(*ar, list);
    }
}

/// Estimated distributions are distributions: the proportions where nothing is near,
/// otherwise one that does not fall and stays between zero and one.
pub proof fn estimated_distributions_are_proper<const D: usize, F: Fn(Op, Double, Double) -> Double, G: Fn([Double; D]) -> Double>(
    cfg: &IkConfig<D, G>,
    ar: Arithmetic<F>,
    data: &PointSet<D>,
    ladder: &Ladder,
    target: [Double; D],
    near: Seq<usize>,
    e: CcdfEstimate,
)
    requires
        averages_keep_order(ar),
        forall|raw: Seq<Double>, k: int|
            cfg.cutoffs_with(ladder).ccdf_outcome(
                ar,
                data.places(),
                near,
                crate::ik::values_at(data.attributes(), near),
                target@,
                Ok(raw),
            ) && 0 <= k < raw.len() ==> !(#[trigger] raw[k]).nan(),
        cfg.estimated(ar, data, ladder, target, near, Ok(e)),
    ensures
        near.len() == 0 ==> e.ccdf@ == ladder.props@,
        near.len() > 0 ==> forall|k: int|
            0 <= k < e.ccdf@.len() ==> in_unit(#[trigger] e.ccdf@[k]),
        near.len() > 0 ==> forall|j: int, k: int|
            0 <= j < k < e.ccdf@.len() ==> (#[trigger] e.ccdf@[j]).at_most(
                #[trigger] e.ccdf@[k],
            ),
{
    let values = crate::ik::values_at(data.attributes(), near);
    let cutoffs = cfg.cutoffs_with(ladder);
    let r = choose|ccdf: Result<Seq<Double>, GeostatError>| #[trigger]
        cutoffs.local_outcome(ar, data.places(), near, values, target@, ccdf) && cfg.summed_up(
            ar,
            ladder,
            ccdf,
            Ok(e),
        );
    if near.len() > 0 {
        let raw = choose|raw: Result<Seq<Double>, GeostatError>| #[trigger]
            cutoffs.ccdf_outcome(ar, data.places(), near, values, target@, raw) && match raw {
                Err(e) => r == Err::<Seq<Double>, GeostatError>(e),
                Ok(v) => r == Ok::<Seq<Double>, GeostatError>(corrected(ar, v)),
            };
        let list = raw->Ok_0;
        assert(raw == Ok::<Seq<Double>, GeostatError>(list));
        crate::ccdf::corrections_are_monotone_and_bounded(ar, list);
    }
}

} // verus!
